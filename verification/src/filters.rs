//! Values as the pages show them.

use time::OffsetDateTime;
use vstd::prelude::*;
use vstd::utf8::encode_utf8;

use crate::{moments, text};

verus! {

/// Why a value could not be shown.
#[derive(Clone, Copy, Debug, PartialEq, Eq, Structural)]
pub enum FilterError {
    /// The point in time has no RFC 3339 form.
    Format,
}

// Times

/// A point in time in its RFC 3339 form.
pub fn format_time(s: &OffsetDateTime) -> (r: Result<String, FilterError>)
    ensures
        match r {
            Ok(written) => moments::rfc3339(moments::instant(*s), moments::utc_offset(*s)) == Some(
                written@,
            ),
            Err(_) => true,
        },
        r is Ok <==> moments::rfc3339_can_write(moments::instant(*s), moments::utc_offset(*s)),
{
    match moments::format_rfc3339(s) {
        Ok(written) => Ok(written),
        Err(_) => Err(FilterError::Format),
    }
}

/// The nanoseconds in an hour.
pub const HOUR: i128 = 3_600_000_000_000;

/// The nanoseconds in a day.
pub const DAY: i128 = 86_400_000_000_000;

/// The class for a time that lies so many nanoseconds back.
pub open spec fn age_class(elapsed: int) -> Seq<char> {
    if elapsed < HOUR {
        "age-mins"@
    } else if elapsed < 2 * DAY {
        "age-hours"@
    } else if elapsed < 7 * DAY {
        "age-days"@
    } else if elapsed < 30 * DAY {
        "age-weeks"@
    } else if elapsed < 365 * DAY {
        "age-months"@
    } else {
        "age-years"@
    }
}

/// The size of a number.
pub open spec fn magnitude(n: int) -> int {
    if n < 0 {
        -n
    } else {
        n
    }
}

/// A length of time in words, as one that lies back.
pub uninterp spec fn ago(seconds: u64, nanos: u32) -> Seq<char>;

/// `timeago::Formatter::convert`, with the formatter that
/// `timeago::Formatter::new` gives: a length of time in English words.
#[verifier::external_body]
fn convert(seconds: u64, nanos: u32) -> (words: String)
    requires
        nanos < 1_000_000_000,
    ensures
        words@ == ago(seconds, nanos),
{
    timeago::Formatter::new().convert(std::time::Duration::new(seconds, nanos))
}

/// An age in words, as HTML, where so many nanoseconds have passed.
pub open spec fn age_span(elapsed: int, words: Seq<char>) -> Seq<char> {
    "<span class=\""@ + age_class(elapsed) + "\">"@ + words + "</span>"@
}

/// How long ago a time was, as HTML, where so many nanoseconds have passed.
pub open spec fn age_html(elapsed: int) -> Seq<char> {
    age_span(
        elapsed,
        ago(
            (magnitude(elapsed) / moments::NANOS as int) as u64,
            (magnitude(elapsed) % moments::NANOS as int) as u32,
        ),
    )
}

/// Puts an age in words into HTML, where so many nanoseconds have passed.
pub fn age_markup(elapsed: i128, words: &str) -> (html: String)
    ensures
        html@ == age_span(elapsed as int, words@),
        elapsed < 3_600_000_000_000 ==> html@ == "<span class=\"age-mins\">"@ + words@
            + "</span>"@,
        3_600_000_000_000 <= elapsed < 172_800_000_000_000 ==> html@
            == "<span class=\"age-hours\">"@ + words@ + "</span>"@,
        172_800_000_000_000 <= elapsed < 604_800_000_000_000 ==> html@
            == "<span class=\"age-days\">"@ + words@ + "</span>"@,
        604_800_000_000_000 <= elapsed < 2_592_000_000_000_000 ==> html@
            == "<span class=\"age-weeks\">"@ + words@ + "</span>"@,
        2_592_000_000_000_000 <= elapsed < 31_536_000_000_000_000 ==> html@
            == "<span class=\"age-months\">"@ + words@ + "</span>"@,
        31_536_000_000_000_000 <= elapsed ==> html@ == "<span class=\"age-years\">"@ + words@
            + "</span>"@,
{
    proof {
        law_age_is_told_by_its_class(elapsed as int, words@);
    }
    let class = if elapsed < HOUR {
        "age-mins"
    } else if elapsed < 2 * DAY {
        "age-hours"
    } else if elapsed < 7 * DAY {
        "age-days"
    } else if elapsed < 30 * DAY {
        "age-weeks"
    } else if elapsed < 365 * DAY {
        "age-months"
    } else {
        "age-years"
    };
    let mut html = String::new();
    html.append("<span class=\"");
    html.append(class);
    html.append("\">");
    html.append(words);
    html.append("</span>");
    html
}

/// How long ago a time was at the time `now`, as HTML. A time to come counts as
/// minutes old, and is put in words as if it lay back as far.
pub fn timeago_at(now: &OffsetDateTime, s: &OffsetDateTime) -> (r: Result<String, FilterError>)
    ensures
        r matches Ok(html) && html@ == age_html(moments::instant(*now) - moments::instant(*s)),
{
    let elapsed: i128 = moments::unix_timestamp_nanos(now) - moments::unix_timestamp_nanos(s);
    let size: i128 = if elapsed < 0 {
        -elapsed
    } else {
        elapsed
    };
    let words = convert((size / moments::NANOS) as u64, (size % moments::NANOS) as u32);
    Ok(age_markup(elapsed, words.as_str()))
}

/// How long ago a time was, as HTML.
pub fn timeago(s: &OffsetDateTime) -> (r: Result<String, FilterError>)
    ensures
        exists|now: OffsetDateTime|
            r matches Ok(html) && html@ == age_html(
                #[trigger] moments::instant(now) - moments::instant(*s),
            ),
{
    let now = moments::now_utc();
    timeago_at(&now, s)
}

// Modes

/// Whether the bit with the given value is set.
pub open spec fn has_bit(mode: u32, value: int) -> bool {
    (mode as int / value) % 2 == 1
}

/// The letter for the type of a file.
pub open spec fn type_letter(mode: u32) -> char {
    let kind = (mode as int / 0o10000) % 16;
    if kind == 1 {
        'p'
    } else if kind == 2 {
        'c'
    } else if kind == 4 {
        'd'
    } else if kind == 6 {
        'b'
    } else if kind == 8 {
        '-'
    } else if kind == 10 {
        'l'
    } else if kind == 12 {
        's'
    } else if kind == 14 {
        'w'
    } else {
        '?'
    }
}

/// The letter where a permission is given, and a dash where it is not.
pub open spec fn permission(mode: u32, value: int, letter: char) -> char {
    if has_bit(mode, value) {
        letter
    } else {
        '-'
    }
}

/// The letter for the permission to execute, which a special bit changes.
pub open spec fn execution(mode: u32, value: int, special: int, with: char, without: char) -> char {
    if has_bit(mode, special) {
        if has_bit(mode, value) {
            with
        } else {
            without
        }
    } else {
        permission(mode, value, 'x')
    }
}

/// Mode bits as `ls` shows them.
pub open spec fn mode_text(mode: u32) -> Seq<char> {
    seq![
        type_letter(mode),
        permission(mode, 0o400, 'r'),
        permission(mode, 0o200, 'w'),
        execution(mode, 0o100, 0o4000, 's', 'S'),
        permission(mode, 0o040, 'r'),
        permission(mode, 0o020, 'w'),
        execution(mode, 0o010, 0o2000, 's', 'S'),
        permission(mode, 0o004, 'r'),
        permission(mode, 0o002, 'w'),
        execution(mode, 0o001, 0o1000, 't', 'T'),
    ]
}

/// `unix_mode::to_string`: mode bits as `ls` shows them.
#[verifier::external_body]
fn mode_to_string(mode: u32) -> (r: String)
    ensures
        r@ == mode_text(mode),
{
    unix_mode::to_string(mode)
}

/// The mode of a file as `ls` shows it. A negative number counts as its size.
pub fn file_perms(s: &i32) -> (r: Result<String, FilterError>)
    ensures
        r matches Ok(written) && written@ == mode_text(magnitude(*s as int) as u32),
        *s >= 0 ==> (r matches Ok(written) && written@ == mode_text(*s as u32)),
        *s < 0 ==> (r matches Ok(written) && written@ == mode_text((0 - *s) as u32)),
{
    let mode: u32 = if *s < 0 {
        (-(*s as i64)) as u32
    } else {
        *s as u32
    };
    Ok(mode_to_string(mode))
}

// Digests

/// The hexadecimal digit for a number under sixteen, in lower case.
pub open spec fn hex_digit(n: int) -> char {
    seq!['0', '1', '2', '3', '4', '5', '6', '7', '8', '9', 'a', 'b', 'c', 'd', 'e', 'f'][n]
}

/// Two digits for each byte, the upper half first.
pub open spec fn hex_text(bytes: Seq<u8>) -> Seq<char> {
    Seq::new(
        2 * bytes.len(),
        |i: int|
            hex_digit(
                if i % 2 == 0 {
                    bytes[i / 2] as int / 16
                } else {
                    bytes[i / 2] as int % 16
                },
            ),
    )
}

/// `hex::encode`: two lower-case digits for each byte.
#[verifier::external_body]
fn hex_encode(bytes: &[u8]) -> (digits: String)
    ensures
        digits@ == hex_text(bytes@),
{
    hex::encode(bytes)
}

/// Bytes as hexadecimal digits.
pub fn hex(s: &[u8]) -> (r: Result<String, FilterError>)
    ensures
        r matches Ok(digits) && digits@ == hex_text(s@),
{
    Ok(hex_encode(s))
}

/// The MD5 digest of bytes.
pub uninterp spec fn md5_digest(bytes: Seq<u8>) -> Seq<u8>;

/// `md5::compute`: the MD5 digest, sixteen bytes.
#[verifier::external_body]
fn md5_compute(bytes: &[u8]) -> (digest: [u8; 16])
    ensures
        digest@ == md5_digest(bytes@),
{
    md5::compute(bytes).0
}

/// The MD5 digest of a text, as hexadecimal digits.
pub fn md5(s: &str) -> (r: Result<String, FilterError>)
    ensures
        r matches Ok(digits) && digits@ == hex_text(md5_digest(encode_utf8(s@))) && digits@.len()
            == 32,
{
    let digest = md5_compute(s.as_bytes());
    Ok(hex_encode(&digest))
}

// Texts

/// A Markdown text as HTML.
pub uninterp spec fn markdown_html(markdown: Seq<char>) -> Seq<char>;

/// `comrak::markdown_to_html`, with no options set: Markdown as HTML.
#[verifier::external_body]
fn markdown_to_html(markdown: &str) -> (html: String)
    ensures
        html@ == markdown_html(markdown@),
{
    comrak::markdown_to_html(markdown, &comrak::ComrakOptions::default())
}

/// A Markdown text as HTML.
pub fn md(markdown: &str) -> (r: Result<String, FilterError>)
    ensures
        r matches Ok(html) && html@ == markdown_html(markdown@),
{
    Ok(markdown_to_html(markdown))
}

/// A text in eighty bytes: whole if it fits, and else its first 77 bytes and
/// three dots.
pub open spec fn limited(s: Seq<char>) -> Seq<char> {
    if text::byte_len(s) > 80 {
        text::byte_slice(s, 0, 77) + "..."@
    } else {
        s
    }
}

/// A text in eighty bytes. A longer one must have a character that starts at
/// its 78th byte.
pub fn limit80(s: &str) -> (r: Result<String, FilterError>)
    requires
        text::byte_len(s@) > 80 ==> text::cuttable(s@, 77),
    ensures
        r matches Ok(short) && short@ == limited(s@),
        encode_utf8(s@).len() <= 80 ==> (r matches Ok(short) && short@ == s@),
        encode_utf8(s@).len() > 80 ==> (r matches Ok(short) && encode_utf8(short@) == encode_utf8(
            s@,
        ).take(77) + seq![0x2eu8, 0x2eu8, 0x2eu8]),
{
    proof {
        law_long_text_is_cut(s@);
    }
    if s.as_bytes().len() > 80 {
        proof {
            vstd::utf8::encode_utf8_valid_utf8(s@);
        }
        let mut short = text::slice(s, 0, 77).to_owned();
        short.append("...");
        Ok(short)
    } else {
        Ok(s.to_owned())
    }
}

// The laws

/// Hexadecimal digits tell the bytes: there are twice as many, and different
/// bytes have different digits.
pub proof fn law_hex_is_faithful(a: Seq<u8>, b: Seq<u8>)
    ensures
        hex_text(a).len() == 2 * a.len(),
        hex_text(a) == hex_text(b) ==> a == b,
{
    if hex_text(a) == hex_text(b) {
        assert(hex_text(b).len() == 2 * b.len());
        assert forall|i: int| 0 <= i < a.len() implies a[i] == b[i] by {
            lemma_hex_digits(a, i);
            lemma_hex_digits(b, i);
            lemma_hex_digit_is_faithful(a[i] as int / 16, b[i] as int / 16);
            lemma_hex_digit_is_faithful(a[i] as int % 16, b[i] as int % 16);
        }
    }
}

/// The two digits of a byte.
pub proof fn lemma_hex_digits(bytes: Seq<u8>, i: int)
    requires
        0 <= i < bytes.len(),
    ensures
        hex_text(bytes)[2 * i] == hex_digit(bytes[i] as int / 16),
        hex_text(bytes)[2 * i + 1] == hex_digit(bytes[i] as int % 16),
{
    assert((2 * i) / 2 == i && (2 * i) % 2 == 0);
    assert((2 * i + 1) / 2 == i && (2 * i + 1) % 2 == 1);
}

proof fn lemma_hex_digit_is_faithful(m: int, n: int)
    requires
        0 <= m < 16,
        0 <= n < 16,
        hex_digit(m) == hex_digit(n),
    ensures
        m == n,
{
}

/// A limited text has eighty bytes at most, and one that has no more is
/// unchanged.
pub proof fn law_limit_is_kept(s: Seq<char>)
    requires
        text::byte_len(s) > 80 ==> text::cuttable(s, 77),
    ensures
        text::byte_len(limited(s)) <= 80,
        text::byte_len(s) <= 80 ==> limited(s) == s,
        limited(limited(s)) == limited(s),
{
    if text::byte_len(s) > 80 {
        let head = text::byte_slice(s, 0, 77);
        text::lemma_head(s, 77);
        reveal_strlit("...");
        assert(vstd::utf8::is_ascii_chars("..."@));
        vstd::utf8::is_ascii_chars_encode_utf8("..."@);
        text::lemma_encode_concat(head, "..."@);
    }
}

/// A text of more than eighty bytes keeps its first 77, and three dots stand for
/// the rest.
pub proof fn law_long_text_is_cut(s: Seq<char>)
    requires
        text::byte_len(s) > 80 ==> text::cuttable(s, 77),
    ensures
        encode_utf8(s).len() > 80 ==> encode_utf8(limited(s)) == encode_utf8(s).take(77) + seq![
            0x2eu8,
            0x2eu8,
            0x2eu8,
        ],
{
    if text::byte_len(s) > 80 {
        let head = text::byte_slice(s, 0, 77);
        text::lemma_head(s, 77);
        reveal_strlit("...");
        assert(vstd::utf8::is_ascii_chars("..."@));
        vstd::utf8::is_ascii_chars_encode_utf8("..."@);
        text::lemma_encode_concat(head, "..."@);
        assert(encode_utf8("..."@) == seq![0x2eu8, 0x2eu8, 0x2eu8]);
        assert(encode_utf8(head) == encode_utf8(s).take(77)) by {
            vstd::utf8::encode_utf8_valid_utf8(s);
            assert(encode_utf8(s).subrange(0, 77) == encode_utf8(s).take(77));
        }
    }
}

/// The mode of a file is shown in ten characters.
pub proof fn law_mode_has_ten_characters(mode: u32)
    ensures
        mode_text(mode).len() == 10,
{
}

/// Each class covers an unbroken range of ages: two ages of a class have no age
/// of another class between them.
pub proof fn law_age_classes_are_intervals(earlier: int, elapsed: int, later: int)
    requires
        earlier <= elapsed <= later,
        age_class(earlier) == age_class(later),
    ensures
        age_class(elapsed) == age_class(earlier),
{
    reveal_strlit("age-mins");
    reveal_strlit("age-hours");
    reveal_strlit("age-days");
    reveal_strlit("age-weeks");
    reveal_strlit("age-months");
    reveal_strlit("age-years");
    let classes = seq![
        "age-mins"@,
        "age-hours"@,
        "age-days"@,
        "age-weeks"@,
        "age-months"@,
        "age-years"@,
    ];
    assert(forall|i: int, j: int| 0 <= i < j < 6 ==> classes[i].len() != classes[j].len()
        || classes[i][4] != classes[j][4]);
}

/// An age is shown in words, in an element with the class for it: minutes under
/// an hour, hours under two days, days under a week, weeks under thirty days,
/// months under 365 days, and else years. The ages are in nanoseconds.
pub proof fn law_age_is_told_by_its_class(elapsed: int, words: Seq<char>)
    ensures
        age_span(elapsed, words) == if elapsed < 3_600_000_000_000 {
            "<span class=\"age-mins\">"@
        } else if elapsed < 172_800_000_000_000 {
            "<span class=\"age-hours\">"@
        } else if elapsed < 604_800_000_000_000 {
            "<span class=\"age-days\">"@
        } else if elapsed < 2_592_000_000_000_000 {
            "<span class=\"age-weeks\">"@
        } else if elapsed < 31_536_000_000_000_000 {
            "<span class=\"age-months\">"@
        } else {
            "<span class=\"age-years\">"@
        } + words + "</span>"@,
{
    reveal_strlit("<span class=\"");
    reveal_strlit("\">");
    reveal_strlit("age-mins");
    reveal_strlit("age-hours");
    reveal_strlit("age-days");
    reveal_strlit("age-weeks");
    reveal_strlit("age-months");
    reveal_strlit("age-years");
    reveal_strlit("<span class=\"age-mins\">");
    reveal_strlit("<span class=\"age-hours\">");
    reveal_strlit("<span class=\"age-days\">");
    reveal_strlit("<span class=\"age-weeks\">");
    reveal_strlit("<span class=\"age-months\">");
    reveal_strlit("<span class=\"age-years\">");
    let opening = "<span class=\""@ + age_class(elapsed) + "\">"@;
    assert(elapsed < 3_600_000_000_000 ==> opening == "<span class=\"age-mins\">"@);
    assert(3_600_000_000_000 <= elapsed < 172_800_000_000_000 ==> opening
        == "<span class=\"age-hours\">"@);
    assert(172_800_000_000_000 <= elapsed < 604_800_000_000_000 ==> opening
        == "<span class=\"age-days\">"@);
    assert(604_800_000_000_000 <= elapsed < 2_592_000_000_000_000 ==> opening
        == "<span class=\"age-weeks\">"@);
    assert(2_592_000_000_000_000 <= elapsed < 31_536_000_000_000_000 ==> opening
        == "<span class=\"age-months\">"@);
    assert(31_536_000_000_000_000 <= elapsed ==> opening == "<span class=\"age-years\">"@);
}

/// The words for an age are those for its whole seconds and the nanoseconds
/// beyond them. A time to come is put in the same words, and counts as minutes
/// old.
pub proof fn law_age_is_put_in_words(seconds: u64, nanos: u32)
    requires
        nanos < 1_000_000_000,
    ensures
        ({
            let elapsed = seconds * 1_000_000_000 + nanos;
            &&& age_html(elapsed) == age_span(elapsed, ago(seconds, nanos))
            &&& elapsed > 0 ==> age_html(-elapsed) == "<span class=\"age-mins\">"@ + ago(
                seconds,
                nanos,
            ) + "</span>"@
        }),
{
    let elapsed = seconds * 1_000_000_000 + nanos;
    assert(elapsed / 1_000_000_000 == seconds && elapsed % 1_000_000_000 == nanos);
    law_age_is_told_by_its_class(-elapsed, ago(seconds, nanos));
}

}
