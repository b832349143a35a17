//! Text as sequences of characters: trimming, splitting and joining, and the
//! byte offsets at which a text can be cut.

use vstd::prelude::*;
use vstd::utf8::*;

verus! {

/// `String::push`: appends one character.
pub assume_specification[ String::push ](buffer: &mut String, c: char)
    ensures
        final(buffer)@ == old(buffer)@.push(c),
;

/// `String::truncate`: keeps the first `new_len` bytes, which must end where a
/// character ends.
pub assume_specification[ String::truncate ](buffer: &mut String, new_len: usize)
    requires
        is_char_boundary(encode_utf8(old(buffer)@), new_len as int),
    ensures
        encode_utf8(final(buffer)@) == encode_utf8(old(buffer)@).subrange(0, new_len as int),
;

/// The text that stands for bytes that are not UTF-8, with replacement
/// characters.
pub uninterp spec fn replaced(bytes: Seq<u8>) -> Seq<char>;

/// The text that stands for bytes. Where they are UTF-8 it is the text that they
/// encode.
pub open spec fn lossy(bytes: Seq<u8>) -> Seq<char> {
    if valid_utf8(bytes) {
        decode_utf8(bytes)
    } else {
        replaced(bytes)
    }
}

/// Whether a text says what bytes hold: it encodes to them, or they are not UTF-8
/// and it is what stands for such bytes.
pub open spec fn spells(text: Seq<char>, bytes: Seq<u8>) -> bool {
    if valid_utf8(bytes) {
        encode_utf8(text) == bytes
    } else {
        text == replaced(bytes)
    }
}

/// Nothing of bytes that are UTF-8 is lost: their text encodes to the same bytes.
pub proof fn law_text_keeps_the_bytes(bytes: Seq<u8>)
    ensures
        spells(lossy(bytes), bytes),
        valid_utf8(bytes) ==> encode_utf8(lossy(bytes)) == bytes,
        !valid_utf8(bytes) ==> lossy(bytes) == replaced(bytes),
{
    if valid_utf8(bytes) {
        decode_utf8_encode_utf8(bytes);
    }
}

/// `String::from_utf8_lossy`: the text of the bytes, with replacement
/// characters for what is not UTF-8. Where all of it is, nothing is replaced.
#[verifier::external_body]
pub(crate) fn from_utf8_lossy(bytes: &[u8]) -> (r: String)
    ensures
        r@ == if valid_utf8(bytes@) {
            decode_utf8(bytes@)
        } else {
            replaced(bytes@)
        },
{
    String::from_utf8_lossy(bytes).into_owned()
}

/// `std::str::from_utf8`: the text of the bytes, if they are UTF-8.
#[verifier::external_body]
pub(crate) fn from_utf8(bytes: &[u8]) -> (r: Option<&str>)
    ensures
        match r {
            Some(found) => valid_utf8(bytes@) && found@ == decode_utf8(bytes@),
            None => !valid_utf8(bytes@),
        },
{
    std::str::from_utf8(bytes).ok()
}

/// Whether two runs of bytes are the same.
pub fn same_bytes(a: &[u8], b: &[u8]) -> (r: bool)
    ensures
        r == (a@ == b@),
{
    if a.len() != b.len() {
        return false;
    }
    for i in 0..a.len()
        invariant
            a@.len() == b@.len(),
            forall|j: int| 0 <= j < i ==> a@[j] == b@[j],
    {
        if a[i] != b[i] {
            return false;
        }
    }
    assert(a@ == b@);
    true
}

// White space

/// The characters with the Unicode property `White_Space`.
pub open spec fn white_space(c: char) -> bool {
    ||| '\u{9}' <= c <= '\u{d}'
    ||| c == '\u{20}'
    ||| c == '\u{85}'
    ||| c == '\u{a0}'
    ||| c == '\u{1680}'
    ||| '\u{2000}' <= c <= '\u{200a}'
    ||| c == '\u{2028}'
    ||| c == '\u{2029}'
    ||| c == '\u{202f}'
    ||| c == '\u{205f}'
    ||| c == '\u{3000}'
}

/// Whether a character has the Unicode property `White_Space`.
pub fn is_white_space(c: char) -> (r: bool)
    ensures
        r == white_space(c),
        '\u{9}' <= c <= '\u{d}' || c == ' ' || c == '\u{85}' || c == '\u{a0}' ==> r,
        c == '\u{1680}' || '\u{2000}' <= c <= '\u{200a}' || c == '\u{2028}' ==> r,
        c == '\u{2029}' || c == '\u{202f}' || c == '\u{205f}' || c == '\u{3000}' ==> r,
        '!' <= c <= '~' || c < '\u{9}' || c > '\u{3000}' ==> !r,
{
    ('\u{9}' <= c && c <= '\u{d}') || c == '\u{20}' || c == '\u{85}' || c == '\u{a0}'
        || c == '\u{1680}' || ('\u{2000}' <= c && c <= '\u{200a}') || c == '\u{2028}'
        || c == '\u{2029}' || c == '\u{202f}' || c == '\u{205f}' || c == '\u{3000}'
}

/// The text without the white space at its end.
pub open spec fn trimmed_end(s: Seq<char>) -> Seq<char>
    decreases s.len(),
{
    if s.len() > 0 && white_space(s.last()) {
        trimmed_end(s.drop_last())
    } else {
        s
    }
}

/// The text without the white space at its start.
pub open spec fn trimmed_start(s: Seq<char>) -> Seq<char>
    decreases s.len(),
{
    if s.len() > 0 && white_space(s[0]) {
        trimmed_start(s.drop_first())
    } else {
        s
    }
}

/// The text without the white space at its two ends.
pub open spec fn trimmed(s: Seq<char>) -> Seq<char> {
    trimmed_end(trimmed_start(s))
}

/// The text without the line feeds at its end.
pub open spec fn without_line_feeds(s: Seq<char>) -> Seq<char>
    decreases s.len(),
{
    if s.len() > 0 && s.last() == '\n' {
        without_line_feeds(s.drop_last())
    } else {
        s
    }
}

/// What is left after trimming the end is a beginning of the text.
pub proof fn lemma_trimmed_end_is_prefix(s: Seq<char>)
    ensures
        trimmed_end(s).len() <= s.len(),
        trimmed_end(s) == s.take(trimmed_end(s).len() as int),
    decreases s.len(),
{
    if s.len() > 0 && white_space(s.last()) {
        lemma_trimmed_end_is_prefix(s.drop_last());
        assert(trimmed_end(s) == s.take(trimmed_end(s).len() as int));
    } else {
        assert(s == s.take(s.len() as int));
    }
}

/// What is left after trimming the start is an end of the text.
pub proof fn lemma_trimmed_start_is_suffix(s: Seq<char>)
    ensures
        trimmed_start(s).len() <= s.len(),
        trimmed_start(s) == s.skip(s.len() - trimmed_start(s).len()),
    decreases s.len(),
{
    if s.len() > 0 && white_space(s[0]) {
        lemma_trimmed_start_is_suffix(s.drop_first());
        assert(trimmed_start(s) == s.skip(s.len() - trimmed_start(s).len()));
    } else {
        assert(s == s.skip(0));
    }
}

/// What is left after dropping line feeds is a beginning of the text.
pub proof fn lemma_without_line_feeds_is_prefix(s: Seq<char>)
    ensures
        without_line_feeds(s).len() <= s.len(),
        without_line_feeds(s) == s.take(without_line_feeds(s).len() as int),
    decreases s.len(),
{
    if s.len() > 0 && s.last() == '\n' {
        lemma_without_line_feeds_is_prefix(s.drop_last());
        assert(without_line_feeds(s) == s.take(without_line_feeds(s).len() as int));
    } else {
        assert(s == s.take(s.len() as int));
    }
}

/// Trimming takes all the white space off the ends of a text, and nothing else.
pub proof fn law_only_the_ends_are_trimmed(before: Seq<char>, core: Seq<char>, behind: Seq<char>)
    requires
        forall|i: int| 0 <= i < before.len() ==> white_space(#[trigger] before[i]),
        forall|i: int| 0 <= i < behind.len() ==> white_space(#[trigger] behind[i]),
        core.len() > 0 ==> !white_space(core[0]) && !white_space(core.last()),
    ensures
        trimmed_end(core + behind) == core,
        trimmed_start(before + core) == core,
        trimmed(before + core + behind) == core,
{
    lemma_end_is_trimmed(core, behind);
    lemma_start_is_trimmed(before, core);
    if core.len() > 0 {
        lemma_start_is_trimmed(before, core + behind);
        assert(before + core + behind == before + (core + behind));
    } else {
        let all = before + behind;
        assert(before + core + behind == all + core);
        assert forall|i: int| 0 <= i < all.len() implies white_space(#[trigger] all[i]) by {
            if i < before.len() {
                assert(white_space(before[i]));
            } else {
                assert(white_space(behind[i - before.len()]));
            }
        }
        lemma_start_is_trimmed(all, core);
        assert(trimmed_end(core) == core);
    }
}

/// Only line feeds are dropped, and all of those at the end are.
pub proof fn law_only_line_feeds_are_dropped(core: Seq<char>, count: nat)
    requires
        core.len() > 0 ==> core.last() != '\n',
    ensures
        without_line_feeds(core + Seq::new(count, |i: int| '\n')) == core,
    decreases count,
{
    let s = core + Seq::new(count, |i: int| '\n');
    if count == 0 {
        assert(s == core);
    } else {
        law_only_line_feeds_are_dropped(core, (count - 1) as nat);
        assert(s.drop_last() == core + Seq::new((count - 1) as nat, |i: int| '\n'));
    }
}

proof fn lemma_end_is_trimmed(core: Seq<char>, behind: Seq<char>)
    requires
        forall|i: int| 0 <= i < behind.len() ==> white_space(#[trigger] behind[i]),
        core.len() > 0 ==> !white_space(core.last()),
    ensures
        trimmed_end(core + behind) == core,
    decreases behind.len(),
{
    let s = core + behind;
    if behind.len() == 0 {
        assert(s == core);
    } else {
        assert(white_space(behind[behind.len() - 1]));
        assert(s.drop_last() == core + behind.drop_last());
        lemma_end_is_trimmed(core, behind.drop_last());
    }
}

proof fn lemma_start_is_trimmed(before: Seq<char>, core: Seq<char>)
    requires
        forall|i: int| 0 <= i < before.len() ==> white_space(#[trigger] before[i]),
        core.len() > 0 ==> !white_space(core[0]),
    ensures
        trimmed_start(before + core) == core,
    decreases before.len(),
{
    let s = before + core;
    if before.len() == 0 {
        assert(s == core);
    } else {
        assert(white_space(before[0]));
        assert(s.drop_first() == before.drop_first() + core);
        lemma_start_is_trimmed(before.drop_first(), core);
    }
}

/// Cuts the white space off the end of a text.
pub fn trim_end(s: &str) -> (r: &str)
    ensures
        r@ == trimmed_end(s@),
{
    let total: usize = s.unicode_len();
    let mut kept: usize = 0;
    let mut seen: usize = 0;
    for c in it: s.chars()
        invariant
            it.seq() == s@,
            s@.len() == total,
            seen == it.index(),
            kept == trimmed_end(s@.take(it.index())).len(),
            kept <= it.index(),
    {
        assert(s@.take(it.index() + 1).drop_last() == s@.take(it.index()));
        seen = seen + 1;
        if !is_white_space(c) {
            kept = seen;
        }
    }
    assert(s@.take(s@.len() as int) == s@);
    proof {
        lemma_trimmed_end_is_prefix(s@);
    }
    s.substring_char(0, kept)
}

/// Cuts the white space off both ends of a text.
pub fn trim(s: &str) -> (r: &str)
    ensures
        r@ == trimmed(s@),
{
    let total: usize = s.unicode_len();
    let mut blank: usize = 0;
    let mut blank_so_far = true;
    assert(s@.skip(0) == s@);
    for c in it: s.chars()
        invariant
            it.seq() == s@,
            s@.len() == total,
            blank_so_far ==> blank == it.index(),
            blank <= it.index(),
            trimmed_start(s@) == trimmed_start(s@.skip(blank as int)),
            !blank_so_far ==> trimmed_start(s@) == s@.skip(blank as int),
    {
        if blank_so_far {
            assert(s@.skip(blank as int).drop_first() == s@.skip(blank + 1));
            if is_white_space(c) {
                blank = blank + 1;
            } else {
                blank_so_far = false;
            }
        }
    }
    trim_end(s.substring_char(blank, total))
}

/// Cuts the line feeds off the end of a text.
pub fn trim_line_feeds(s: &str) -> (r: &str)
    ensures
        r@ == without_line_feeds(s@),
{
    let total: usize = s.unicode_len();
    let mut kept: usize = 0;
    let mut seen: usize = 0;
    for c in it: s.chars()
        invariant
            it.seq() == s@,
            s@.len() == total,
            seen == it.index(),
            kept == without_line_feeds(s@.take(it.index())).len(),
            kept <= it.index(),
    {
        assert(s@.take(it.index() + 1).drop_last() == s@.take(it.index()));
        seen = seen + 1;
        if c != '\n' {
            kept = seen;
        }
    }
    assert(s@.take(s@.len() as int) == s@);
    proof {
        lemma_without_line_feeds_is_prefix(s@);
    }
    s.substring_char(0, kept)
}

// Lines and pieces

/// The lines of a text, each with the line feed that ends it.
pub open spec fn lines(s: Seq<char>) -> Seq<Seq<char>>
    decreases s.len(),
{
    if s.len() == 0 {
        seq![]
    } else {
        let before = lines(s.drop_last());
        if before.len() == 0 || before.last().last() == '\n' {
            before.push(seq![s.last()])
        } else {
            before.drop_last().push(before.last().push(s.last()))
        }
    }
}

/// The pieces of a text between the occurrences of a separator.
pub open spec fn pieces(s: Seq<char>, separator: char) -> Seq<Seq<char>>
    decreases s.len(),
{
    if s.len() == 0 {
        seq![seq![]]
    } else {
        let before = pieces(s.drop_last(), separator);
        if s.last() == separator {
            before.push(seq![])
        } else {
            before.drop_last().push(before.last().push(s.last()))
        }
    }
}

/// The position of the first occurrence of a character, or the length.
pub open spec fn first_index(s: Seq<char>, c: char) -> int
    decreases s.len(),
{
    if s.len() == 0 || s[0] == c {
        0
    } else {
        1 + first_index(s.drop_first(), c)
    }
}

/// The parts one after the other, with a separator between them.
pub open spec fn joined(parts: Seq<Seq<char>>, separator: Seq<char>) -> Seq<char>
    decreases parts.len(),
{
    if parts.len() == 0 {
        seq![]
    } else if parts.len() == 1 {
        parts[0]
    } else {
        joined(parts.drop_last(), separator) + separator + parts.last()
    }
}

/// The parts one after the other.
pub open spec fn concatenated(parts: Seq<Seq<char>>) -> Seq<char>
    decreases parts.len(),
{
    if parts.len() == 0 {
        seq![]
    } else {
        concatenated(parts.drop_last()) + parts.last()
    }
}

/// The texts that the strings hold.
pub open spec fn views(strings: Seq<String>) -> Seq<Seq<char>> {
    strings.map_values(|s: String| s@)
}

/// The lines of a text, put one after the other, are the text. None is empty,
/// and a line feed ends every line but the last and stands nowhere else.
pub proof fn law_lines_make_up_the_text(s: Seq<char>)
    ensures
        concatenated(lines(s)) == s,
        forall|k: int| 0 <= k < lines(s).len() ==> (#[trigger] lines(s)[k]).len() > 0,
        forall|k: int|
            0 <= k < lines(s).len() - 1 ==> (#[trigger] lines(s)[k]).last() == '\n',
        forall|k: int, i: int|
            0 <= k < lines(s).len() && 0 <= i < lines(s)[k].len() - 1
                ==> #[trigger] lines(s)[k][i] != '\n',
    decreases s.len(),
{
    if s.len() > 0 {
        let before = lines(s.drop_last());
        law_lines_make_up_the_text(s.drop_last());
        assert(s == s.drop_last().push(s.last()));
        if before.len() == 0 || before.last().last() == '\n' {
            assert(lines(s).drop_last() == before);
        } else {
            assert(lines(s).drop_last() == before.drop_last());
            assert(before.drop_last().push(before.last()) == before);
        }
    }
}

/// The pieces of a text, joined by the separator, are the text again, and no
/// piece holds the separator.
pub proof fn law_pieces_join_to_the_text(s: Seq<char>, separator: char)
    ensures
        pieces(s, separator).len() > 0,
        joined(pieces(s, separator), seq![separator]) == s,
        forall|k: int|
            0 <= k < pieces(s, separator).len() ==> !(#[trigger] pieces(s, separator)[k]).contains(
                separator,
            ),
    decreases s.len(),
{
    if s.len() > 0 {
        let before = pieces(s.drop_last(), separator);
        let now = pieces(s, separator);
        law_pieces_join_to_the_text(s.drop_last(), separator);
        assert(s == s.drop_last().push(s.last()));
        if s.last() == separator {
            assert(now.drop_last() == before);
        } else {
            assert(now.drop_last() == before.drop_last());
            assert forall|k: int| 0 <= k < now.len() implies !(#[trigger] now[k]).contains(
                separator,
            ) by {
                assert(!before[k].contains(separator));
                if k == now.len() - 1 && now[k].contains(separator) {
                    let i = now[k].index_of(separator);
                    assert(before[k][i] == separator);
                }
            }
            if before.len() == 1 {
                assert(now[0] == s);
            } else {
                assert(joined(now, seq![separator]) == s);
            }
        }
    }
}

/// Parts that do not hold the separator are the pieces of the text that they
/// are joined to.
pub proof fn law_joined_parts_are_the_pieces(parts: Seq<Seq<char>>, separator: char)
    requires
        parts.len() > 0,
        forall|k: int| 0 <= k < parts.len() ==> !(#[trigger] parts[k]).contains(separator),
    ensures
        pieces(joined(parts, seq![separator]), separator) == parts,
    decreases parts.len(),
{
    if parts.len() == 1 {
        lemma_pieces_grow(seq![], parts[0], separator);
        assert(Seq::<char>::empty() + parts[0] == parts[0]);
        assert(pieces(seq![], separator) == seq![Seq::<char>::empty()]);
        assert(pieces(parts[0], separator) == parts);
    } else {
        let before = joined(parts.drop_last(), seq![separator]);
        law_joined_parts_are_the_pieces(parts.drop_last(), separator);
        let cut = before + seq![separator];
        assert(cut.drop_last() == before);
        assert(pieces(cut, separator) == parts.drop_last().push(seq![]));
        lemma_pieces_grow(cut, parts.last(), separator);
        assert(seq![] + parts.last() == parts.last());
        assert(pieces(cut, separator).drop_last() == parts.drop_last());
        assert(parts.drop_last().push(parts.last()) == parts);
    }
}

/// Characters that are no separators lengthen the last piece.
proof fn lemma_pieces_grow(s: Seq<char>, more: Seq<char>, separator: char)
    requires
        !more.contains(separator),
    ensures
        pieces(s, separator).len() > 0,
        pieces(s + more, separator) == pieces(s, separator).drop_last().push(
            pieces(s, separator).last() + more,
        ),
    decreases more.len(),
{
    law_pieces_join_to_the_text(s, separator);
    if more.len() == 0 {
        assert(s + more == s);
        assert(pieces(s, separator).last() + more == pieces(s, separator).last());
        assert(pieces(s, separator).drop_last().push(pieces(s, separator).last()) == pieces(
            s,
            separator,
        ));
    } else {
        let shorter = more.drop_last();
        assert(more[more.len() - 1] != separator);
        assert forall|i: int| 0 <= i < shorter.len() implies shorter[i] != separator by {
            assert(shorter[i] == more[i]);
        }
        lemma_pieces_grow(s, shorter, separator);
        assert((s + more).drop_last() == s + shorter);
        let before = pieces(s + shorter, separator);
        assert(before.drop_last() == pieces(s, separator).drop_last());
        assert(before.last().push(more.last()) == pieces(s, separator).last() + more);
    }
}

/// The pieces of two texts with a separator between them are the pieces of the
/// first and those of the second.
pub proof fn law_pieces_by_parts(a: Seq<char>, b: Seq<char>, separator: char)
    ensures
        pieces(a + seq![separator] + b, separator) == pieces(a, separator) + pieces(b, separator),
    decreases b.len(),
{
    let whole = a + seq![separator] + b;
    if b.len() == 0 {
        assert(whole.drop_last() == a);
        assert(pieces(a, separator).push(seq![]) == pieces(a, separator) + pieces(b, separator));
    } else {
        law_pieces_by_parts(a, b.drop_last(), separator);
        law_pieces_join_to_the_text(b.drop_last(), separator);
        assert(whole.drop_last() == a + seq![separator] + b.drop_last());
        assert(whole.last() == b.last());
        let before = pieces(a, separator) + pieces(b.drop_last(), separator);
        assert(before.last() == pieces(b.drop_last(), separator).last());
        assert(before.drop_last() == pieces(a, separator) + pieces(
            b.drop_last(),
            separator,
        ).drop_last());
        assert(pieces(whole, separator) == pieces(a, separator) + pieces(b, separator));
    }
}

/// Joining parts and more parts gives the two joined texts with a separator
/// between them.
pub proof fn law_joined_by_parts(
    first: Seq<Seq<char>>,
    second: Seq<Seq<char>>,
    separator: Seq<char>,
)
    requires
        first.len() > 0,
        second.len() > 0,
    ensures
        joined(first + second, separator) == joined(first, separator) + separator + joined(
            second,
            separator,
        ),
    decreases second.len(),
{
    let whole = first + second;
    assert(whole.drop_last() == first + second.drop_last());
    if second.len() == 1 {
        assert(whole.drop_last() == first);
    } else {
        law_joined_by_parts(first, second.drop_last(), separator);
        assert(joined(whole, separator) == joined(first, separator) + separator + joined(
            second,
            separator,
        ));
    }
}

/// Cuts a text into its lines.
pub fn lines_with_endings(s: &str) -> (r: Vec<String>)
    ensures
        views(r@) == lines(s@),
{
    let mut done: Vec<String> = Vec::new();
    let mut line = String::new();
    let mut open = false;
    for c in it: s.chars()
        invariant
            it.seq() == s@,
            !open ==> line@.len() == 0 && views(done@) == lines(s@.take(it.index())) && (
            done@.len() == 0 || lines(s@.take(it.index())).last().last() == '\n'),
            open ==> line@.len() > 0 && line@.last() != '\n' && views(done@).push(line@) == lines(
                s@.take(it.index()),
            ),
    {
        assert(s@.take(it.index() + 1).drop_last() == s@.take(it.index()));
        let ghost before = lines(s@.take(it.index()));
        let ghost now = lines(s@.take(it.index() + 1));
        let ghost old_line = line@;
        line.push(c);
        proof {
            if open {
                assert(before.drop_last() == views(done@));
                assert(now == views(done@).push(line@));
            } else {
                assert(old_line.push(c) == seq![c]);
                assert(now == views(done@).push(line@));
            }
        }
        if c == '\n' {
            let ghost old_done = done@;
            done.push(line);
            assert(views(done@) == views(old_done).push(now.last()));
            line = String::new();
            open = false;
        } else {
            open = true;
        }
    }
    assert(s@.take(s@.len() as int) == s@);
    if open {
        let ghost old_done = done@;
        let ghost last = line@;
        done.push(line);
        assert(views(done@) == views(old_done).push(last));
    }
    done
}

/// Cuts a text at every occurrence of a separator.
pub fn split(s: &str, separator: char) -> (r: Vec<String>)
    ensures
        views(r@) == pieces(s@, separator),
{
    let mut done: Vec<String> = Vec::new();
    let mut piece = String::new();
    assert(views(done@).push(piece@) == pieces(s@.take(0), separator));
    for c in it: s.chars()
        invariant
            it.seq() == s@,
            views(done@).push(piece@) == pieces(s@.take(it.index()), separator),
    {
        assert(s@.take(it.index() + 1).drop_last() == s@.take(it.index()));
        let ghost before = pieces(s@.take(it.index()), separator);
        assert(before.drop_last() == views(done@));
        if c == separator {
            let ghost old_done = done@;
            let ghost last = piece@;
            done.push(piece);
            assert(views(done@) == views(old_done).push(last));
            piece = String::new();
        } else {
            piece.push(c);
        }
        assert(views(done@).push(piece@) == pieces(s@.take(it.index() + 1), separator));
    }
    assert(s@.take(s@.len() as int) == s@);
    let ghost old_done = done@;
    let ghost last = piece@;
    done.push(piece);
    assert(views(done@) == views(old_done).push(last));
    done
}

/// The first occurrence, and that nothing before it is one.
pub proof fn lemma_first_index(s: Seq<char>, c: char)
    ensures
        0 <= first_index(s, c) <= s.len(),
        first_index(s, c) < s.len() <==> s.contains(c),
        first_index(s, c) < s.len() ==> s[first_index(s, c)] == c,
        forall|i: int| 0 <= i < first_index(s, c) ==> s[i] != c,
    decreases s.len(),
{
    if s.len() > 0 && s[0] != c {
        let rest = s.drop_first();
        lemma_first_index(rest, c);
        assert forall|i: int| 0 <= i < first_index(s, c) implies s[i] != c by {
            if i > 0 {
                assert(rest[i - 1] != c);
            }
        }
        if s.contains(c) {
            let i = s.index_of(c);
            assert(rest[i - 1] == c);
        }
        if rest.contains(c) {
            let i = rest.index_of(c);
            assert(s[i + 1] == c);
        }
    }
}

/// Cuts a text in two at the first occurrence of a separator.
pub fn split_once(s: &str, separator: char) -> (r: Option<(String, String)>)
    ensures
        match r {
            Some((left, right)) => {
                &&& s@.contains(separator)
                &&& left@ == s@.take(first_index(s@, separator))
                &&& right@ == s@.skip(first_index(s@, separator) + 1)
            },
            None => !s@.contains(separator),
        },
        r matches Some((left, right)) ==> {
            &&& s@ == left@ + seq![separator] + right@
            &&& !left@.contains(separator)
        },
{
    let mut left = String::new();
    let mut right = String::new();
    let mut found = false;
    let ghost at = first_index(s@, separator);
    proof {
        lemma_first_index(s@, separator);
        if s@.contains(separator) {
            assert(s@ == s@.take(at) + seq![separator] + s@.skip(at + 1));
            assert(!s@.take(at).contains(separator));
        }
    }
    for c in it: s.chars()
        invariant
            it.seq() == s@,
            at == first_index(s@, separator),
            0 <= at <= s@.len(),
            at < s@.len() ==> s@[at] == separator,
            forall|i: int| 0 <= i < at ==> s@[i] != separator,
            found == (at < it.index()),
            left@ == s@.take(if found { at } else { it.index() }),
            right@ == if found {
                s@.subrange(at + 1, it.index())
            } else {
                seq![]
            },
    {
        assert(c == s@[it.index()]);
        if found {
            right.push(c);
        } else if c == separator {
            found = true;
        } else {
            left.push(c);
        }
    }
    assert(s@.take(s@.len() as int) == s@);
    if found {
        Some((left, right))
    } else {
        None
    }
}

/// Puts the parts one after the other, with a separator between them.
pub fn join(parts: &Vec<String>, separator: &str) -> (r: String)
    ensures
        r@ == joined(views(parts@), separator@),
{
    let mut out = String::new();
    for k in 0..parts.len()
        invariant
            out@ == joined(views(parts@).take(k as int), separator@),
    {
        let ghost before = views(parts@).take(k as int);
        let ghost now = views(parts@).take(k + 1);
        assert(now.drop_last() == before);
        if k > 0 {
            out.append(separator);
        }
        out.append(parts[k].as_str());
    }
    assert(views(parts@).take(parts@.len() as int) == views(parts@));
    out
}

// Byte offsets

/// The text between two byte offsets.
pub open spec fn byte_slice(s: Seq<char>, from: int, to: int) -> Seq<char> {
    decode_utf8(encode_utf8(s).subrange(from, to))
}

/// How many bytes a text takes.
pub open spec fn byte_len(s: Seq<char>) -> nat {
    encode_utf8(s).len()
}

/// Whether a text can be cut at a byte offset.
pub open spec fn cuttable(s: Seq<char>, at: int) -> bool {
    is_char_boundary(encode_utf8(s), at)
}

/// The bytes of two texts in a row are the bytes of the first and those of the
/// second.
pub proof fn lemma_encode_concat(a: Seq<char>, b: Seq<char>)
    ensures
        encode_utf8(a + b) == encode_utf8(a) + encode_utf8(b),
    decreases a.len(),
{
    if a.len() == 0 {
        assert(a + b == b);
        assert(encode_utf8(a) + encode_utf8(b) == encode_utf8(b));
    } else {
        lemma_encode_concat(a.drop_first(), b);
        assert((a + b).drop_first() == a.drop_first() + b);
        assert(encode_utf8(a + b) == encode_utf8(a) + encode_utf8(b));
    }
}

/// Two texts with the same bytes are the same text.
pub proof fn lemma_encode_injective(a: Seq<char>, b: Seq<char>)
    requires
        encode_utf8(a) == encode_utf8(b),
    ensures
        a == b,
{
    encode_utf8_decode_utf8(a);
    encode_utf8_decode_utf8(b);
}

/// A beginning of a text has no more bytes than the text, and the text can be
/// cut where the beginning ends.
pub proof fn lemma_prefix_bytes(s: Seq<char>, n: int)
    requires
        0 <= n <= s.len(),
    ensures
        byte_len(s.take(n)) <= byte_len(s),
        encode_utf8(s.take(n)) == encode_utf8(s).subrange(0, byte_len(s.take(n)) as int),
        cuttable(s, byte_len(s.take(n)) as int),
{
    let a = s.take(n);
    let b = s.skip(n);
    assert(s == a + b);
    lemma_encode_concat(a, b);
    encode_utf8_valid_utf8(s);
    encode_utf8_valid_utf8(b);
    let k = byte_len(a) as int;
    assert(encode_utf8(s).subrange(0, k) == encode_utf8(a));
    if b.len() == 0 {
        assert(a == s);
        is_char_boundary_start_end_of_seq(encode_utf8(s));
    } else {
        encode_utf8_first_scalar(b);
        is_char_boundary_start_end_of_seq(encode_utf8(b));
        is_char_boundary_iff_not_is_continuation_byte(encode_utf8(s), k);
        assert(encode_utf8(b).len() > 0);
        assert(encode_utf8(s)[k] == encode_utf8(b)[0]);
        is_char_boundary_iff_not_is_continuation_byte(encode_utf8(b), 0);
    }
}

/// Where a text can be cut, every beginning of it that reaches so far can be
/// cut too.
pub proof fn lemma_cut_prefix(s: Seq<char>, n: int, at: int)
    requires
        0 <= n <= s.len(),
        cuttable(s, at),
        0 <= at <= byte_len(s.take(n)),
    ensures
        cuttable(s.take(n), at),
{
    let a = s.take(n);
    lemma_prefix_bytes(s, n);
    encode_utf8_valid_utf8(s);
    encode_utf8_valid_utf8(a);
    if at == byte_len(a) {
        is_char_boundary_start_end_of_seq(encode_utf8(a));
    } else {
        assert(encode_utf8(a)[at] == encode_utf8(s)[at]);
        is_char_boundary_iff_not_is_continuation_byte(encode_utf8(s), at);
        is_char_boundary_iff_not_is_continuation_byte(encode_utf8(a), at);
    }
}

/// How many characters stand before a byte offset.
pub open spec fn chars_before(s: Seq<char>, at: int) -> int {
    byte_slice(s, 0, at).len() as int
}

/// The text before a byte offset is a beginning of the text.
pub proof fn lemma_head(s: Seq<char>, at: int)
    requires
        cuttable(s, at),
    ensures
        0 <= at <= byte_len(s),
        0 <= chars_before(s, at) <= s.len(),
        byte_slice(s, 0, at) == s.take(chars_before(s, at)),
        byte_len(s.take(chars_before(s, at))) == at,
        encode_utf8(byte_slice(s, 0, at)) == encode_utf8(s).take(at),
{
    let bytes = encode_utf8(s);
    encode_utf8_valid_utf8(s);
    encode_utf8_decode_utf8(s);
    lemma_cut_in_range(bytes, at);
    valid_utf8_split(bytes, at);
    decode_utf8_split(bytes, at);
    decode_utf8_encode_utf8(bytes.subrange(0, at));
    assert(byte_slice(s, 0, at) == s.take(chars_before(s, at)));
    assert(bytes.subrange(0, at) == bytes.take(at));
}

proof fn lemma_cut_in_range(bytes: Seq<u8>, at: int)
    requires
        valid_utf8(bytes),
        is_char_boundary(bytes, at),
    ensures
        0 <= at <= bytes.len(),
{
}

/// The text between two byte offsets, by its characters.
pub proof fn lemma_between(s: Seq<char>, from: int, to: int)
    requires
        cuttable(s, from),
        cuttable(s, to),
        from <= to,
    ensures
        0 <= chars_before(s, from) <= chars_before(s, to) <= s.len(),
        byte_slice(s, from, to) == s.subrange(chars_before(s, from), chars_before(s, to)),
{
    lemma_head(s, from);
    lemma_head(s, to);
    let head = s.take(chars_before(s, to));
    lemma_prefix_bytes(s, chars_before(s, to));
    lemma_cut_prefix(s, chars_before(s, to), from);
    encode_utf8_valid_utf8(head);
    encode_utf8_decode_utf8(head);
    let bytes = encode_utf8(head);
    decode_utf8_split(bytes, from);
    assert(bytes.subrange(0, from) == encode_utf8(s).subrange(0, from));
    assert(bytes.subrange(from, bytes.len() as int) == encode_utf8(s).subrange(from, to));
    let a = byte_slice(s, 0, from);
    let b = byte_slice(s, from, to);
    assert(head == a + b);
    assert(b == head.skip(a.len() as int));
    assert(b == s.subrange(chars_before(s, from), chars_before(s, to)));
}

/// The text between two byte offsets at which the text can be cut.
pub fn slice<'a>(s: &'a str, from: usize, to: usize) -> (r: &'a str)
    requires
        cuttable(s@, from as int),
        cuttable(s@, to as int),
        from <= to,
    ensures
        r@ == byte_slice(s@, from as int, to as int),
        encode_utf8(r@) == encode_utf8(s@).subrange(from as int, to as int),
{
    let ghost bytes = encode_utf8(s@);
    proof {
        encode_utf8_valid_utf8(s@);
    }
    let (head, _) = s.split_at(to);
    proof {
        valid_utf8_split(bytes, to as int);
        encode_utf8_valid_utf8(head@);
        if from == to {
            is_char_boundary_start_end_of_seq(encode_utf8(head@));
        } else {
            is_char_boundary_iff_not_is_continuation_byte(bytes, from as int);
            is_char_boundary_iff_not_is_continuation_byte(encode_utf8(head@), from as int);
        }
    }
    let (_, r) = head.split_at(from);
    assert(encode_utf8(r@) == bytes.subrange(from as int, to as int));
    proof {
        encode_utf8_decode_utf8(r@);
    }
    r
}

}
