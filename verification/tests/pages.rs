use rgit::commits::{
    Commit, CommitUser, DetailedTag, RawCommit, RawTag, Signature, TaggedObject, TargetKind,
    TimeOutOfRange,
};
use rgit::diffs::{self, DiffLine, EmailAuthor, FormattedDiff, LineOrigin, SentCommit};
use rgit::objects::{
    self, Content, Found, ObjectKind, PathDestination, PathError, ReadmeFormat, TreeEntry,
    TreeItem,
};
use rgit::refs::{ObjectId, Source};
use rgit::requests::{self, DiffResponse, EmptyId, UriQuery};
use rgit::syntax;

fn id(digits: &str) -> ObjectId {
    ObjectId::parse(digits).unwrap()
}

fn entry(name: &[u8], mode: i32, object: ObjectKind) -> TreeEntry {
    TreeEntry { name: name.to_vec(), mode, object }
}

fn blob(name: &[u8], content: &[u8], binary: bool) -> Found {
    Found::Blob { name: name.to_vec(), mode: 0o100644, content: content.to_vec(), binary }
}

fn signature(seconds: i64) -> Signature {
    Signature { name: b"J\xc3\xb6rg \xff".to_vec(), email: b"j@example.org".to_vec(), seconds }
}

fn raw_commit(author: i64, committer: i64) -> RawCommit {
    RawCommit {
        author: signature(author),
        committer: signature(committer),
        id: id("aa"),
        tree: id("bb"),
        parents: vec![id("c1"), id("c2")],
        summary: Some(b"A summary".to_vec()),
        body: None,
    }
}

fn line(origin: LineOrigin, path: Option<&str>, content: &str) -> DiffLine {
    DiffLine {
        origin,
        content: content.as_bytes().to_vec(),
        path: path.map(|p| p.as_bytes().to_vec()),
    }
}

fn query(id: Option<&str>, branch: Option<&str>, base: Option<&str>, patch: Option<&str>) -> UriQuery {
    UriQuery {
        id: id.map(str::to_owned),
        branch: branch.map(str::to_owned),
        diff_base: base.map(str::to_owned),
        patch: patch.map(str::to_owned),
    }
}

// Trees and files

#[test]
fn directories_are_listed_in_order() {
    let set = syntax::default_syntaxes();
    let found = Found::Tree(vec![
        entry(b"src", 0o040000, ObjectKind::Tree),
        entry(b"module", 0o160000, ObjectKind::Other),
        entry(b"x\xff", 0o100644, ObjectKind::Blob(7)),
    ]);
    let made = objects::path_destination(Some(b"lib"), &found, true, &set).unwrap();
    let items = match made {
        PathDestination::Tree(items) => items,
        PathDestination::File(_) => panic!("a file"),
    };
    assert_eq!(items.len(), 2);
    match &items[0] {
        TreeItem::Tree(tree) => {
            assert_eq!((tree.mode, tree.name.as_str()), (0o040000, "src"));
            assert_eq!(tree.path, b"lib/src");
        }
        TreeItem::File(_) => panic!("a file"),
    }
    match &items[1] {
        TreeItem::File(file) => {
            assert_eq!((file.mode, file.size, file.name.as_str()), (0o100644, 7, "x\u{fffd}"));
            assert_eq!(file.path, "lib/x\u{fffd}".as_bytes());
        }
        TreeItem::Tree(_) => panic!("a directory"),
    }
}

#[test]
fn the_top_directory_has_no_path() {
    let items = objects::list(b"", &vec![entry(b"a", 0o100644, ObjectKind::Blob(0))]);
    assert!(matches!(&items[0], TreeItem::File(file) if file.path == b"a"));
    let set = syntax::default_syntaxes();
    let found = Found::Tree(Vec::new());
    let made = objects::path_destination(None, &found, false, &set).unwrap();
    assert!(matches!(made, PathDestination::Tree(items) if items.is_empty()));
}

#[test]
fn a_list_goes_by_parts() {
    let names = |items: &Vec<TreeItem>| -> Vec<String> {
        items
            .iter()
            .map(|item| match item {
                TreeItem::Tree(tree) => tree.name.clone(),
                TreeItem::File(file) => file.name.clone(),
            })
            .collect()
    };
    let a = || vec![entry(b"a", 0, ObjectKind::Blob(1)), entry(b"b", 0, ObjectKind::Other)];
    let b = || vec![entry(b"c", 0, ObjectKind::Tree)];
    let mut whole = a();
    whole.extend(b());
    let mut parts = names(&objects::list(b"x", &a()));
    parts.extend(names(&objects::list(b"x", &b())));
    assert_eq!(names(&objects::list(b"x", &whole)), parts);
    assert_eq!(parts, ["a", "c"]);
}

#[test]
fn files_are_shown_as_they_are_or_formatted() {
    let set = syntax::default_syntaxes();
    let content = b"a < b\n\xff";
    let text = blob(b"notes", content, false);
    let binary = blob(b"notes", content, true);
    let show = |found: &Found, formatted: bool| {
        match objects::path_destination(Some(b"doc"), found, formatted, &set).unwrap() {
            PathDestination::File(file) => file,
            PathDestination::Tree(_) => panic!("a directory"),
        }
    };
    let plain = show(&text, false);
    assert_eq!(plain.metadata.size, content.len());
    assert_eq!(plain.metadata.mode, 0o100644);
    assert_eq!(plain.metadata.name, "notes");
    assert_eq!(plain.metadata.path, b"doc/notes");
    assert!(matches!(&plain.content, Content::Text(t) if t == "a < b\n\u{fffd}"));
    assert_eq!(plain.content.content_type(), "text/plain; charset=UTF-8");
    let raw = show(&binary, false);
    assert!(matches!(&raw.content, Content::Binary(b) if b == content));
    assert_eq!(raw.content.content_type(), "application/octet-stream");
    assert!(matches!(show(&binary, true).content, Content::Binary(b) if b.is_empty()));
    assert!(matches!(
        show(&text, true).content,
        Content::Text(t) if t == "<code><span class=\"text plain\">a &lt; b</span></code>\n\
                                  <code><span class=\"text plain\">\u{fffd}</span></code>\n"
    ));
}

#[test]
fn the_language_is_told_by_the_name() {
    let set = syntax::default_syntaxes();
    let found = blob(b"main.rs", b"let", false);
    let made = objects::path_destination(Some(b"main.rs"), &found, true, &set).unwrap();
    assert!(matches!(
        made,
        PathDestination::File(file) if matches!(&file.content, Content::Text(t) if t.contains("storage type rust"))
    ));
}

#[test]
fn other_objects_cannot_be_shown() {
    let set = syntax::default_syntaxes();
    assert!(matches!(
        objects::path_destination(Some(b"module"), &Found::Other, true, &set),
        Err(PathError::NeitherTreeNorBlob)
    ));
}

#[test]
fn the_first_readme_that_is_text_is_picked() {
    assert_eq!(objects::readme_files(), ["README.md", "README", "README.txt", "readme.md"]);
    let some = |content: &[u8]| Some(content.to_vec());
    assert!(objects::pick_readme(&vec![None, None, None, None]).is_none());
    assert_eq!(
        objects::pick_readme(&vec![some(b"# one"), some(b"two"), None, None]),
        Some((ReadmeFormat::Markdown, "# one"))
    );
    assert_eq!(
        objects::pick_readme(&vec![some(b"\xff"), None, some(b"three"), some(b"four")]),
        Some((ReadmeFormat::Plaintext, "three"))
    );
    assert_eq!(
        objects::pick_readme(&vec![None, some(b"\xc3"), None, some(b"four")]),
        Some((ReadmeFormat::Markdown, "four"))
    );
}

#[test]
fn markdown_is_told_by_the_extension() {
    assert_eq!(objects::find_readme_format("README.md"), ReadmeFormat::Markdown);
    assert_eq!(objects::find_readme_format("readme.md"), ReadmeFormat::Markdown);
    assert_eq!(objects::find_readme_format("README"), ReadmeFormat::Plaintext);
    assert_eq!(objects::find_readme_format("README.txt"), ReadmeFormat::Plaintext);
    assert_eq!(objects::find_readme_format("README.MD"), ReadmeFormat::Plaintext);
}

#[test]
fn readmes_are_read_with_all_extensions() {
    let set = objects::readme_extensions();
    assert!(set.autolink && set.footnotes && set.strikethrough);
    assert!(set.table && set.tagfilter && set.tasklist);
}

// Commits and tags

#[test]
fn people_are_read_from_signatures() {
    let user = CommitUser::try_from(&signature(1_700_000_000)).unwrap();
    assert_eq!(user.name(), "J\u{f6}rg \u{fffd}");
    assert_eq!(user.email(), "j@example.org");
    assert_eq!(user.time().unix_timestamp(), 1_700_000_000);
    assert!(user.time().offset().is_utc());
}

#[test]
fn times_that_cannot_be_told_are_refused() {
    assert!(CommitUser::try_from(&signature(253_402_300_799)).is_ok());
    assert!(matches!(CommitUser::try_from(&signature(253_402_300_800)), Err(TimeOutOfRange)));
    assert!(CommitUser::try_from(&signature(-377_705_116_800)).is_ok());
    assert!(matches!(CommitUser::try_from(&signature(-377_705_116_801)), Err(TimeOutOfRange)));
}

#[test]
fn commits_are_read() {
    let commit = Commit::try_from(&raw_commit(1, 2)).unwrap();
    assert_eq!(commit.author().time().unix_timestamp(), 1);
    assert_eq!(commit.committer().time().unix_timestamp(), 2);
    assert_eq!(commit.oid(), format!("aa{}", "0".repeat(38)));
    assert_eq!(commit.tree(), format!("bb{}", "0".repeat(38)));
    assert_eq!(
        commit.parents(),
        [format!("c1{}", "0".repeat(38)), format!("c2{}", "0".repeat(38))]
    );
    assert_eq!(commit.summary(), "A summary");
    assert_eq!(commit.body(), "");
    for (shown, parent) in commit.parents().into_iter().zip(["c1", "c2"]) {
        assert!(ObjectId::parse(shown).unwrap().same(&id(parent)));
    }
}

#[test]
fn commits_need_both_times() {
    assert!(matches!(Commit::try_from(&raw_commit(i64::MAX, 0)), Err(TimeOutOfRange)));
    assert!(matches!(Commit::try_from(&raw_commit(0, i64::MIN)), Err(TimeOutOfRange)));
}

#[test]
fn tags_are_read() {
    let raw = |tagger: Option<Signature>, target_kind: TargetKind| RawTag {
        tagger,
        message: Some(b"first\n".to_vec()),
        target: id("dd"),
        target_kind,
    };
    let digits = format!("dd{}", "0".repeat(38));
    let tag = DetailedTag::try_from("v1", &raw(Some(signature(5)), TargetKind::Commit)).unwrap();
    assert_eq!((tag.name.as_str(), tag.message.as_str()), ("v1", "first\n"));
    assert_eq!(tag.tagger.unwrap().time().unix_timestamp(), 5);
    assert!(matches!(tag.tagged_object, Some(TaggedObject::Commit(d)) if d == digits));
    let tag = DetailedTag::try_from("v1", &raw(None, TargetKind::Tree)).unwrap();
    assert!(tag.tagger.is_none());
    assert!(matches!(tag.tagged_object, Some(TaggedObject::Tree(d)) if d == digits));
    let tag = DetailedTag::try_from("v1", &raw(None, TargetKind::Other)).unwrap();
    assert!(tag.tagged_object.is_none());
    let late = raw(Some(signature(i64::MAX)), TargetKind::Commit);
    assert!(matches!(DetailedTag::try_from("v1", &late), Err(TimeOutOfRange)));
    let silent = RawTag { message: None, ..raw(None, TargetKind::Other) };
    assert_eq!(DetailedTag::try_from("v1", &silent).unwrap().message, "");
}

// Differences

#[test]
fn stats_link_to_the_files() {
    let stats = " src/main.rs | 2 +-\n doc/a.md    |  10 |+\n 2 files changed\n";
    assert_eq!(
        diffs::format_diff_stats(stats, "abc"),
        "<a href=\"../tree/src/main.rs?id=abc\">src/main.rs</a>  | 2 +-\n\
         <a href=\"../tree/doc/a.md?id=abc\">doc/a.md</a>     |  10 |+\n \
         2 files changed\n"
    );
    assert_eq!(diffs::format_diff_stats("", "abc"), "");
    assert_eq!(
        diffs::format_diff_stats("|", "abc"),
        "<a href=\"../tree/?id=abc\"></a>|"
    );
}

#[test]
fn stats_stay_line_by_line() {
    let stats = "a | 1\n\nb | 2\nend";
    let html = diffs::format_diff_stats(stats, "r");
    assert_eq!(html.split('\n').count(), stats.split('\n').count());
    for (made, line) in html.split('\n').zip(stats.split('\n')) {
        assert_eq!(made, diffs::format_diff_stats(line, "r"));
    }
}

#[test]
fn stats_go_by_parts() {
    let (a, b) = (" x | 1", " 1 file changed\n y | 2\n");
    for ref_ in ["r", "r\ns", ""] {
        assert_eq!(
            diffs::format_diff_stats(&format!("{}\n{}", a, b), ref_),
            format!(
                "{}\n{}",
                diffs::format_diff_stats(a, ref_),
                diffs::format_diff_stats(b, ref_)
            )
        );
    }
}

#[test]
fn padding_counts_bytes() {
    let html = diffs::format_diff_stats("\u{a0}gr\u{fc}n\u{3000} | 1", "r");
    assert_eq!(
        html,
        "<a href=\"../tree/gr\u{fc}n?id=r\">gr\u{fc}n</a>      | 1"
    );
}

#[test]
fn lines_have_classes() {
    let expected = [
        (LineOrigin::Addition, Some("add-line")),
        (LineOrigin::Deletion, Some("remove-line")),
        (LineOrigin::Context, Some("context")),
        (LineOrigin::AddEofNl, Some("remove-line")),
        (LineOrigin::DeleteEofNl, Some("add-line")),
        (LineOrigin::FileHeader, Some("file-header")),
        (LineOrigin::Other, None),
    ];
    for (origin, class) in expected {
        assert_eq!(diffs::find_line_class(origin), class);
    }
}

#[test]
fn source_lines_are_in_the_language_of_the_file() {
    let path = Some("src/main.rs");
    assert_eq!(diffs::find_line_hint(&line(LineOrigin::Addition, path, "")), "rs");
    assert_eq!(diffs::find_line_hint(&line(LineOrigin::Deletion, path, "")), "rs");
    assert_eq!(diffs::find_line_hint(&line(LineOrigin::Context, path, "")), "rs");
    assert_eq!(diffs::find_line_hint(&line(LineOrigin::Context, None, "")), "");
    assert_eq!(diffs::find_line_hint(&line(LineOrigin::FileHeader, path, "")), "patch");
    assert_eq!(diffs::find_line_hint(&line(LineOrigin::AddEofNl, path, "")), "patch");
    assert_eq!(diffs::find_line_hint(&line(LineOrigin::Other, path, "")), "patch");
}

#[test]
fn differences_are_shown_line_by_line() {
    let set = syntax::default_syntaxes();
    let path = Some("notes");
    let a = line(LineOrigin::Deletion, path, "a < b\n");
    let b = line(LineOrigin::Addition, path, "a > b\n");
    let html = diffs::format_diff(&vec![a, b], &set).unwrap();
    assert_eq!(
        html,
        "<span class=\"diff-remove-line\"><span class=\"text plain\">a &lt; b\n</span></span>\
         <span class=\"diff-add-line\"><span class=\"text plain\">a &gt; b\n</span></span>"
    );
    let a = vec![line(LineOrigin::Deletion, path, "a < b\n")];
    let b = vec![line(LineOrigin::Addition, path, "a > b\n")];
    assert_eq!(
        html,
        diffs::format_diff(&a, &set).unwrap() + &diffs::format_diff(&b, &set).unwrap()
    );
    assert_eq!(diffs::format_diff(&Vec::new(), &set).unwrap(), "");
}

#[test]
fn headers_and_other_lines_are_patches() {
    let set = syntax::default_syntaxes();
    let header = vec![line(LineOrigin::FileHeader, Some("x"), "diff --git a/x b/x\n")];
    let html = diffs::format_diff(&header, &set).unwrap();
    assert!(html.starts_with("<span class=\"diff-file-header\"><span class=\"source diff\">"));
    assert!(html.ends_with("</span></span>"));
    let hunk = vec![line(LineOrigin::Other, Some("x"), "@@ -1 +1 @@\n")];
    let html = diffs::format_diff(&hunk, &set).unwrap();
    assert!(html.starts_with("<span class=\"source diff\">"));
}

#[test]
fn a_commit_is_compared_to_its_first_parent() {
    let parents = vec![id("c1"), id("c2")];
    assert!(diffs::diff_base(None, &parents).unwrap().same(&id("c1")));
    assert!(diffs::diff_base(Some(id("ee")), &parents).unwrap().same(&id("ee")));
    assert!(diffs::diff_base(None, &Vec::new()).is_none());
    let nothing = FormattedDiff::default();
    assert!(nothing.diff_stats.is_empty() && nothing.diff.is_empty());
    assert!(nothing.diff_plain.is_empty());
}

#[test]
fn an_email_is_about_the_commit_if_it_is_compared_to_a_parent() {
    let commit = || SentCommit {
        id: id("aa"),
        parents: vec![id("c1"), id("c2")],
        summary: Some("A summary".to_owned()),
        body: None,
    };
    let header = diffs::email_header(&id("c2"), &commit());
    assert!(header.id.same(&id("aa")));
    assert_eq!((header.summary.as_str(), header.body.as_str()), ("A summary", ""));
    assert!(matches!(header.author, EmailAuthor::OfCommit));
    let header = diffs::email_header(&id("ee"), &commit());
    assert!(header.id.same(&ObjectId::zero()));
    assert_eq!((header.summary.as_str(), header.body.as_str()), ("", ""));
    assert!(matches!(
        header.author,
        EmailAuthor::Nobody(name, address) if name == "diff" && address == "git@diff"
    ));
}

#[test]
fn a_difference_is_put_together() {
    let set = syntax::default_syntaxes();
    let lines = vec![line(LineOrigin::Context, Some("notes"), "x\n")];
    let made = diffs::formatted_diff(Some(" a | 1"), &id("aa"), &lines, b"From", &set).unwrap();
    assert_eq!(
        made.diff_stats,
        format!("<a href=\"../tree/a?id=aa{}\">a</a>  | 1", "0".repeat(38))
    );
    assert_eq!(
        made.diff,
        "<span class=\"diff-context\"><span class=\"text plain\">x\n</span></span>"
    );
    assert_eq!(made.diff_plain, b"From");
    let made = diffs::formatted_diff(None, &id("aa"), &Vec::new(), b"", &set).unwrap();
    assert_eq!((made.diff_stats.as_str(), made.diff.as_str()), ("", ""));
}

// Requests

#[test]
fn plain_text_is_asked_for_with_one() {
    assert!(requests::wants_patch(&query(None, None, None, Some("1"))));
    for patch in [None, Some(""), Some("0"), Some("11"), Some("true")] {
        assert!(!requests::wants_patch(&query(None, None, None, patch)));
    }
}

#[test]
fn requests_are_about_an_id_or_a_branch() {
    assert!(matches!(
        requests::commit_source(&query(Some("ab"), Some("dev"), None, None)),
        Source::Id(id) if id.bytes[0] == 0xab
    ));
    assert!(matches!(
        requests::commit_source(&query(Some("v1"), None, None, None)),
        Source::Name(name) if name == "v1"
    ));
    assert!(matches!(
        requests::commit_source(&query(None, Some("ab"), None, None)),
        Source::Name(name) if name == "ab"
    ));
    assert!(matches!(requests::commit_source(&query(None, None, None, None)), Source::Head));
}

#[test]
fn requests_can_name_a_base() {
    assert!(requests::base_source(&query(Some("a"), None, None, None)).is_none());
    assert!(matches!(
        requests::base_source(&query(None, None, Some("v1"), None)),
        Some(Source::Name(name)) if name == "v1"
    ));
    assert!(matches!(
        requests::base_source(&query(None, None, Some("ee"), None)),
        Some(Source::Id(id)) if id.bytes[0] == 0xee
    ));
}

#[test]
fn an_empty_id_is_refused_for_a_difference() {
    let to = requests::redirect("r", &query(None, None, None, Some("1")));
    assert_eq!(to, Some("/r/diff?id=&patch=1".to_owned()));
    let arrived = query(Some(""), None, None, Some("1"));
    assert!(matches!(requests::diff_source(&arrived), Err(EmptyId)));
    assert!(matches!(
        requests::diff_source(&query(Some("ab"), None, None, None)),
        Ok(Source::Id(id)) if id.bytes[0] == 0xab
    ));
    assert!(matches!(
        requests::diff_source(&query(None, Some("dev"), None, None)),
        Ok(Source::Name(name)) if name == "dev"
    ));
    assert!(matches!(
        requests::diff_source(&query(None, None, Some("a"), None)),
        Ok(Source::Head)
    ));
}

#[test]
fn an_empty_id_is_a_name_elsewhere() {
    assert!(matches!(
        requests::commit_source(&query(Some(""), Some("dev"), None, None)),
        Source::Name(name) if name.is_empty()
    ));
    assert!(matches!(
        requests::base_source(&query(Some("a"), None, Some(""), None)),
        Some(Source::Name(name)) if name.is_empty()
    ));
}

#[test]
fn commit_requests_are_sent_on() {
    let to = |q: UriQuery| requests::redirect("some/repo", &q);
    assert_eq!(to(query(Some("a"), Some("dev"), None, None)), None);
    assert_eq!(to(query(Some("a"), None, None, Some("0"))), None);
    assert_eq!(
        to(query(Some("a"), Some("dev"), Some("b"), None)),
        Some("/some/repo/diff?id=a&id0=b".to_owned())
    );
    assert_eq!(
        to(query(None, Some("dev"), None, Some("1"))),
        Some("/some/repo/diff?id=dev&patch=1".to_owned())
    );
    assert_eq!(
        to(query(None, None, Some("b"), Some("x"))),
        Some("/some/repo/diff?id=&id0=b&patch=x".to_owned())
    );
}

#[test]
fn difference_requests_are_answered() {
    let diff = || FormattedDiff {
        diff_stats: "s".to_owned(),
        diff: "d".to_owned(),
        diff_plain: b"p".to_vec(),
    };
    assert!(matches!(
        requests::respond(&query(None, None, None, Some("1")), diff()),
        DiffResponse::Plain("text/plain", bytes) if bytes == b"p"
    ));
    assert!(matches!(
        requests::respond(&query(None, None, None, None), diff()),
        DiffResponse::Page(page) if page.diff == "d" && page.diff_stats == "s"
    ));
}
