use rgit::escape::Escape;
use rgit::filters;
use rgit::text;
use time::OffsetDateTime;

fn at(seconds: i64) -> OffsetDateTime {
    OffsetDateTime::from_unix_timestamp(seconds).unwrap()
}

fn age(elapsed: i64) -> String {
    let start = 1_700_000_000;
    filters::timeago_at(&at(start + elapsed), &at(start)).unwrap()
}

#[test]
fn escape_replaces_the_five_characters() {
    assert_eq!(
        Escape("<a href=\"x\">it's & more</a>").to_string(),
        "&lt;a href=&quot;x&quot;&gt;it&#39;s &amp; more&lt;/a&gt;"
    );
}

#[test]
fn escape_leaves_other_text_alone() {
    assert_eq!(Escape("").to_string(), "");
    assert_eq!(Escape("grün 緑\n").to_string(), "grün 緑\n");
}

#[test]
fn ampersands_begin_references() {
    let html = Escape("&&lt;<>'\"&").to_string();
    assert_eq!(html, "&amp;&amp;lt;&lt;&gt;&#39;&quot;&amp;");
    for (i, _) in html.match_indices('&') {
        let references = ["&amp;", "&lt;", "&gt;", "&#39;", "&quot;"];
        assert!(references.iter().any(|r| html[i..].starts_with(r)));
    }
    for c in ["&", "<", ">", "'", "\""] {
        assert_ne!(Escape(c).to_string(), c);
    }
}

#[test]
fn escape_appends() {
    let mut out = String::from("<p>");
    Escape("a<b").write_to(&mut out);
    assert_eq!(out, "<p>a&lt;b");
}

#[test]
fn escape_goes_by_parts_and_can_be_undone() {
    let (a, b) = ("1 < 2 && ", "\"3\" > '2'");
    let whole = Escape(&format!("{}{}", a, b)).to_string();
    assert_eq!(whole, Escape(a).to_string() + &Escape(b).to_string());
    let back = whole
        .replace("&lt;", "<")
        .replace("&gt;", ">")
        .replace("&#39;", "'")
        .replace("&quot;", "\"")
        .replace("&amp;", "&");
    assert_eq!(back, format!("{}{}", a, b));
    assert!(!whole.contains('<') && !whole.contains('>') && !whole.contains('"'));
}

#[test]
fn format_time_writes_rfc3339() {
    assert_eq!(filters::format_time(&at(0)).unwrap(), "1970-01-01T00:00:00Z");
    assert_eq!(filters::format_time(&at(1_700_000_000)).unwrap(), "2023-11-14T22:13:20Z");
    assert_eq!(filters::format_time(&at(-62_167_219_200)).unwrap(), "0000-01-01T00:00:00Z");
    assert_eq!(filters::format_time(&at(253_402_300_799)).unwrap(), "9999-12-31T23:59:59Z");
}

#[test]
fn format_time_refuses_years_before_zero() {
    assert_eq!(
        filters::format_time(&at(-62_167_219_201)),
        Err(filters::FilterError::Format)
    );
}

#[test]
fn timeago_names_the_age() {
    assert_eq!(age(0), "<span class=\"age-mins\">now</span>");
    assert_eq!(age(30), "<span class=\"age-mins\">30 seconds ago</span>");
    assert_eq!(age(3599), "<span class=\"age-mins\">59 minutes ago</span>");
    assert_eq!(age(3600), "<span class=\"age-hours\">1 hour ago</span>");
    assert_eq!(age(2 * 86_400 - 1), "<span class=\"age-hours\">1 day ago</span>");
    assert_eq!(age(2 * 86_400), "<span class=\"age-days\">2 days ago</span>");
    assert_eq!(age(7 * 86_400), "<span class=\"age-weeks\">1 week ago</span>");
    assert!(age(30 * 86_400 - 1).starts_with("<span class=\"age-weeks\">"));
    assert!(age(30 * 86_400).starts_with("<span class=\"age-months\">"));
    assert!(age(365 * 86_400 - 1).starts_with("<span class=\"age-months\">"));
    assert!(age(365 * 86_400).starts_with("<span class=\"age-years\">"));
}

#[test]
fn age_markup_puts_words_in_their_class() {
    let hour = 3_600_000_000_000;
    assert_eq!(
        filters::age_markup(hour - 1, "a while"),
        "<span class=\"age-mins\">a while</span>"
    );
    assert_eq!(filters::age_markup(hour, ""), "<span class=\"age-hours\"></span>");
    assert_eq!(filters::age_markup(i128::MIN, "x"), "<span class=\"age-mins\">x</span>");
    assert_eq!(filters::age_markup(i128::MAX, "x"), "<span class=\"age-years\">x</span>");
}

#[test]
fn timeago_takes_the_size_of_a_time_to_come() {
    assert_eq!(age(-7200), "<span class=\"age-mins\">2 hours ago</span>");
}

#[test]
fn timeago_uses_the_present() {
    let html = filters::timeago(&OffsetDateTime::now_utc()).unwrap();
    assert!(html.starts_with("<span class=\"age-mins\">"));
    let html = filters::timeago(&at(0)).unwrap();
    assert!(html.starts_with("<span class=\"age-years\">"));
    assert!(html.ends_with(" years ago</span>"));
}

#[test]
fn file_perms_looks_like_ls() {
    assert_eq!(filters::file_perms(&0o100644).unwrap(), "-rw-r--r--");
    assert_eq!(filters::file_perms(&0o100755).unwrap(), "-rwxr-xr-x");
    assert_eq!(filters::file_perms(&0o040000).unwrap(), "d---------");
    assert_eq!(filters::file_perms(&0o120777).unwrap(), "lrwxrwxrwx");
    assert_eq!(filters::file_perms(&0o104755).unwrap(), "-rwsr-xr-x");
    assert_eq!(filters::file_perms(&0o102644).unwrap(), "-rw-r-Sr--");
    assert_eq!(filters::file_perms(&0o041777).unwrap(), "drwxrwxrwt");
    assert_eq!(filters::file_perms(&0o041776).unwrap(), "drwxrwxrwT");
    assert_eq!(filters::file_perms(&0).unwrap(), "?---------");
}

#[test]
fn file_perms_takes_the_size_of_a_negative_mode() {
    assert_eq!(filters::file_perms(&-0o100644).unwrap(), "-rw-r--r--");
    assert_eq!(filters::file_perms(&i32::MIN).unwrap(), "?---------");
}

#[test]
fn hex_writes_two_digits_for_each_byte() {
    assert_eq!(filters::hex(&[]).unwrap(), "");
    assert_eq!(filters::hex(&[0x00, 0x0f, 0xa5, 0xff]).unwrap(), "000fa5ff");
    assert_ne!(filters::hex(&[0x01]).unwrap(), filters::hex(&[0x10]).unwrap());
}

#[test]
fn md5_writes_the_digest() {
    assert_eq!(filters::md5("").unwrap(), "d41d8cd98f00b204e9800998ecf8427e");
    assert_eq!(filters::md5("hello").unwrap(), "5d41402abc4b2a76b9719d911017c592");
}

#[test]
fn md_renders_markdown() {
    assert_eq!(filters::md("*hi*").unwrap(), "<p><em>hi</em></p>\n");
    assert_eq!(filters::md("# Title").unwrap(), "<h1>Title</h1>\n");
}

#[test]
fn limit80_cuts_after_77_bytes() {
    let fits = "a".repeat(80);
    assert_eq!(filters::limit80(&fits).unwrap(), fits);
    let long = "a".repeat(81);
    let short = filters::limit80(&long).unwrap();
    assert_eq!(short, "a".repeat(77) + "...");
    assert_eq!(short.len(), 80);
    assert_eq!(filters::limit80(&short).unwrap(), short);
    assert_eq!(filters::limit80("").unwrap(), "");
}

#[test]
fn limit80_counts_bytes() {
    let long = format!("a{}", "ü".repeat(40));
    assert_eq!(long.len(), 81);
    assert_eq!(filters::limit80(&long).unwrap(), format!("a{}...", "ü".repeat(38)));
}

#[test]
fn lines_make_up_the_text() {
    let content = "one\n\ntwo\r\nthree";
    let lines = text::lines_with_endings(content);
    assert_eq!(lines, ["one\n", "\n", "two\r\n", "three"]);
    assert_eq!(lines.concat(), content);
    assert!(text::lines_with_endings("").is_empty());
    assert_eq!(text::lines_with_endings("\n"), ["\n"]);
}

#[test]
fn pieces_join_to_the_text() {
    for content in ["", "|", "a|b", "|a||b|", "none"] {
        let pieces = text::split(content, '|');
        let expected: Vec<&str> = content.split('|').collect();
        assert_eq!(pieces, expected);
        assert_eq!(text::join(&pieces, "|"), content);
    }
    assert_eq!(text::join(&Vec::new(), "|"), "");
}

#[test]
fn split_once_finds_the_first() {
    assert_eq!(
        text::split_once("a|b|c", '|'),
        Some(("a".to_owned(), "b|c".to_owned()))
    );
    assert_eq!(text::split_once("|", '|'), Some((String::new(), String::new())));
    assert_eq!(text::split_once("abc", '|'), None);
}

#[test]
fn trimming_knows_white_space() {
    let blanks = "\u{9}\u{a}\u{b}\u{c}\u{d} \u{85}\u{a0}\u{1680}\u{2000}\u{200a}\u{2028}\u{2029}\u{202f}\u{205f}\u{3000}";
    let content = format!("{}x y{}", blanks, blanks);
    assert_eq!(text::trim(&content), "x y");
    assert_eq!(text::trim_end(&content), content.trim_end());
    assert_eq!(text::trim(blanks), "");
    assert_eq!(text::trim("\u{200b}x"), "\u{200b}x");
    assert_eq!(text::trim_line_feeds("a \n\n"), "a ");
    assert_eq!(text::trim_line_feeds("a\r\n"), "a\r");
    for c in (0..0x11_0000u32).filter_map(char::from_u32) {
        assert_eq!(text::is_white_space(c), c.is_whitespace());
    }
}

#[test]
fn slices_are_cut_at_byte_offsets() {
    let content = "aüb緑c";
    assert_eq!(text::slice(content, 1, 3), "ü");
    assert_eq!(text::slice(content, 3, 7), "b緑");
    assert_eq!(text::slice(content, 0, content.len()), content);
    assert_eq!(text::slice(content, 8, 8), "");
}

#[test]
fn bytes_are_compared() {
    assert!(text::same_bytes(b"", b""));
    assert!(text::same_bytes(b"ab", b"ab"));
    assert!(!text::same_bytes(b"ab", b"a"));
    assert!(!text::same_bytes(b"ab", b"ac"));
}
