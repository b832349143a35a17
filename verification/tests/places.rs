use rgit::paths;
use rgit::refs::{self, BadId, NoTagGiven, ObjectId, Source};

fn hint(path: &str) -> String {
    paths::find_language_hint(path.as_bytes())
}

#[test]
fn names_are_joined_to_paths() {
    assert_eq!(paths::join(b"src", b"main.rs"), b"src/main.rs");
    assert_eq!(paths::join(b"src/", b"main.rs"), b"src/main.rs");
    assert_eq!(paths::join(b"", b"main.rs"), b"main.rs");
    assert_eq!(paths::join(b"src", b"/etc"), b"/etc");
    assert_eq!(paths::join(b"src", b""), b"src/");
    assert_eq!(paths::join(b"\xff", b"x"), b"\xff/x");
    assert_eq!(paths::join_text("grün", "x"), "grün/x");
    assert_eq!(paths::join_text("grün/", "x"), "grün/x");
    assert_eq!(paths::join_text("", "x"), "x");
    assert_eq!(paths::join_text("a", "/x"), "/x");
}

#[test]
fn joining_is_that_of_the_standard_library() {
    for base in ["", "a", "a/", "/", "a/b", "a//"] {
        for name in ["", "x", "/x", "x/", ".", "..", "x/y"] {
            let expected = std::path::Path::new(base).join(name);
            assert_eq!(paths::join_text(base, name), expected.to_str().unwrap());
            assert_eq!(
                paths::join(base.as_bytes(), name.as_bytes()),
                expected.to_str().unwrap().as_bytes()
            );
        }
    }
}

#[test]
fn the_hint_is_the_extension_or_the_name() {
    assert_eq!(hint("src/main.rs"), "rs");
    assert_eq!(hint("archive.tar.gz"), "gz");
    assert_eq!(hint("src/Makefile"), "Makefile");
    assert_eq!(hint(".gitignore"), ".gitignore");
    assert_eq!(hint("a.d/file"), "file");
    assert_eq!(hint("name."), "");
    assert_eq!(hint(""), "");
    assert_eq!(hint("/"), "");
    assert_eq!(hint("a/.."), "");
    assert_eq!(hint("src/main.rs/"), "rs");
    assert_eq!(hint("src/main.rs/./."), "rs");
    assert_eq!(paths::find_language_hint(b"x.\xff"), "\u{fffd}");
}

#[test]
fn the_hint_is_that_of_the_standard_library() {
    let names = [
        "a", "a.b", ".a", ".a.b", "a.", "..", ".", "...", "..a", "a..b", "", "a.b.c",
    ];
    for dir in ["", "x/", "x.y/", "/", "./", "../", "x//"] {
        for name in names {
            for end in ["", "/", "/.", "//"] {
                let path = format!("{}{}{}", dir, name, end);
                let path_ = std::path::Path::new(&path);
                let expected = path_
                    .extension()
                    .or_else(|| path_.file_name())
                    .map_or("", |s| s.to_str().unwrap());
                assert_eq!(hint(&path), expected, "{}", path);
            }
        }
    }
}

#[test]
fn the_hint_does_not_depend_on_the_directory() {
    assert_eq!(hint("some/where.d/main.rs"), hint("main.rs"));
    assert_eq!(hint("some/where.d/README"), hint("README"));
}

#[test]
fn extensions_are_compared() {
    assert!(paths::has_extension(b"README.md", b"md"));
    assert!(!paths::has_extension(b"README.md", b"mdx"));
    assert!(!paths::has_extension(b"README.mdx", b"md"));
    assert!(!paths::has_extension(b"README", b""));
    assert!(paths::has_extension(b"README.", b""));
    assert!(!paths::has_extension(b".md", b"md"));
    assert!(!paths::has_extension(b"", b"md"));
}

#[test]
fn ids_are_read_and_written() {
    let digits = "0123456789abcdef0123456789abcdef01234567";
    let id = ObjectId::parse(digits).unwrap();
    assert_eq!(id.bytes[0], 0x01);
    assert_eq!(id.bytes[19], 0x67);
    assert_eq!(id.to_string(), digits);
    assert_eq!(ObjectId::parse(&digits.to_uppercase()).unwrap().to_string(), digits);
}

#[test]
fn short_ids_are_filled_with_zeros() {
    assert_eq!(
        ObjectId::parse("abc").unwrap().to_string(),
        format!("abc{}", "0".repeat(37))
    );
}

#[test]
fn other_texts_are_no_ids() {
    assert!(matches!(ObjectId::parse(""), Err(BadId)));
    assert!(matches!(ObjectId::parse("main"), Err(BadId)));
    assert!(matches!(ObjectId::parse("0x1"), Err(BadId)));
    assert!(matches!(ObjectId::parse("ä"), Err(BadId)));
    assert!(matches!(ObjectId::parse(&"a".repeat(41)), Err(BadId)));
    assert!(ObjectId::parse(&"a".repeat(40)).is_ok());
}

#[test]
fn the_zero_id_is_that_of_git() {
    assert_eq!(ObjectId::zero().to_string(), git2::Oid::zero().to_string());
}

#[test]
fn ids_are_compared() {
    let a = ObjectId::parse("aa").unwrap();
    let b = ObjectId::parse("ab").unwrap();
    assert!(a.same(&ObjectId::parse("aa00").unwrap()));
    assert!(!a.same(&b));
}

#[test]
fn a_branch_or_else_the_head() {
    assert!(matches!(refs::branch_or_head(None), Source::Head));
    assert!(matches!(refs::branch_or_head(Some("dev")), Source::Name(name) if name == "dev"));
}

#[test]
fn an_id_comes_before_the_branch() {
    assert!(matches!(
        refs::id_or_branch(Some("ab"), Some("dev")),
        Ok(Source::Id(id)) if id.bytes[0] == 0xab
    ));
    assert!(matches!(refs::id_or_branch(Some("dev"), Some("dev")), Err(BadId)));
    assert!(matches!(refs::id_or_branch(None, Some("dev")), Ok(Source::Name(name)) if name == "dev"));
    assert!(matches!(refs::id_or_branch(None, None), Ok(Source::Head)));
}

#[test]
fn a_text_is_an_id_if_it_can_be() {
    assert!(matches!(refs::id_or_name("feed"), Source::Id(id) if id.bytes[..2] == [0xfe, 0xed]));
    assert!(matches!(refs::id_or_name("feature"), Source::Name(name) if name == "feature"));
}

#[test]
fn the_digits_of_an_id_name_its_object() {
    let id = ObjectId::parse("0123456789abcdef0123456789abcdef01234567").unwrap();
    assert!(matches!(refs::id_or_name(&id.to_string()), Source::Id(found) if found.same(&id)));
    assert!(matches!(refs::id_or_name("beef"), Source::Id(id) if id.bytes[..2] == [0xbe, 0xef]));
}

#[test]
fn tags_have_references() {
    assert_eq!(refs::tag_reference(Some("v1.0")), Ok("refs/tags/v1.0".to_owned()));
    assert_eq!(refs::tag_reference(None), Err(NoTagGiven));
}
