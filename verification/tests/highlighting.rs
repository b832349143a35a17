use rgit::highlight;
use rgit::markup::{Mark, Painter, Reading, SpanEdit};
use rgit::syntax;
use syntect::parsing::syntax_definition::{context_iter, ContextReference, MatchOperation, Pattern};
use syntect::parsing::{
    ParseState, Regex, Scope, SyntaxDefinition, SyntaxSet, SyntaxSetBuilder,
};

fn syntaxes() -> SyntaxSet {
    syntax::default_syntaxes()
}

/// The text of HTML, without its tags.
fn shown(html: &str) -> String {
    let mut out = String::new();
    let mut in_tag = false;
    for c in html.chars() {
        match c {
            '<' => in_tag = true,
            '>' => in_tag = false,
            _ if !in_tag => out.push(c),
            _ => {}
        }
    }
    out.replace("&lt;", "<")
        .replace("&gt;", ">")
        .replace("&#39;", "'")
        .replace("&quot;", "\"")
        .replace("&amp;", "&")
}

fn count(html: &str, needle: &str) -> usize {
    html.matches(needle).count()
}

fn open(class: &str) -> SpanEdit {
    SpanEdit::Open(class.to_owned())
}

fn mark(at: usize, edits: Vec<SpanEdit>) -> Mark {
    Mark { at, edits }
}

#[test]
fn plain_text_is_shown_line_by_line() {
    let set = syntaxes();
    assert_eq!(
        highlight::format_file("a < b  \n\n'c'", "no such extension", &set).unwrap(),
        "<code><span class=\"text plain\">a &lt; b</span></code>\n\
         <code><span class=\"text plain\"></span></code>\n\
         <code><span class=\"text plain\">&#39;c&#39;</span></code>\n"
    );
}

#[test]
fn nothing_is_shown_of_an_empty_file() {
    assert_eq!(highlight::format_file("", "rs", &syntaxes()).unwrap(), "");
}

#[test]
fn source_keeps_its_text() {
    let set = syntaxes();
    let content = "fn main() {\n    let s = \"a < b\"; // one & two\n    /* over\n       lines */\n}\n";
    let html = highlight::format_file(content, "rs", &set).unwrap();
    assert_eq!(shown(&html), content);
    assert!(html.contains("<span class=\"storage type rust\">let</span>"));
    for line in html.lines() {
        assert!(line.starts_with("<code>") && line.ends_with("</code>"));
        assert_eq!(count(line, "<span"), count(line, "</span>"));
    }
    assert_eq!(html.lines().count(), content.lines().count());
}

#[test]
fn bare_source_keeps_its_text() {
    let set = syntaxes();
    let content = "if x:\n    pass  # done\n\"\"\"two\nlines\"\"\"\n";
    let mut html = String::from("before ");
    highlight::format_file_inner(&mut html, content, "py", &set, false).unwrap();
    assert!(html.starts_with("before "));
    assert!(!html.contains("<code>"));
    assert_eq!(shown(&html), format!("before {}", content));
    assert_eq!(count(&html, "<span"), count(&html, "</span>"));
}

#[test]
fn long_lines_are_not_highlighted() {
    let set = syntaxes();
    let longest = format!("let x = {};\n", "1".repeat(2048 - 10));
    assert_eq!(longest.len(), 2048);
    assert!(highlight::format_file(&longest, "rs", &set).unwrap().contains("<span"));
    let longer = format!("let x = {};   \n", "1".repeat(2048 - 9));
    assert_eq!(
        highlight::format_file(&longer, "rs", &set).unwrap(),
        format!("<code>{}</code>\n", longer.trim_end())
    );
    let mut bare = String::new();
    highlight::format_file_inner(&mut bare, &longer, "rs", &set, false).unwrap();
    assert_eq!(bare, longer);
}

#[test]
fn a_syntax_is_found_by_extension_or_is_plain() {
    let set = syntaxes();
    assert!(syntax::has_plain_text(&set));
    assert!(!syntax::has_plain_text(&SyntaxSet::new()));
    assert_eq!(syntax::find_syntax(&set, "rs").name, "Rust");
    assert_eq!(syntax::find_syntax(&set, "Makefile").name, "Makefile");
    assert_eq!(syntax::find_syntax(&set, "no such extension").name, "Plain Text");
    assert_eq!(syntax::find_syntax(&set, "").name, "Plain Text");
}

#[test]
fn scopes_become_classes() {
    let mut classes = String::from("x ");
    syntax::scope_to_classes(&mut classes, Scope::new("keyword.other.rust").unwrap());
    assert_eq!(classes, "x keyword other rust");
    let mut none = String::new();
    syntax::scope_to_classes(&mut none, Scope::new("").unwrap());
    assert_eq!(none, "");
}

#[test]
fn spans_run_over_line_ends() {
    let mut painter = Painter::new();
    let marks = Reading::Marks(vec![mark(1, vec![open("a"), open("b")])]);
    assert!(painter.paint_line("x/*\n", &marks, true));
    let marks = Reading::Marks(vec![mark(2, vec![SpanEdit::Close, SpanEdit::Close])]);
    assert!(painter.paint_line("*/y \n", &marks, true));
    assert_eq!(
        painter.html(),
        "<code>x<span class=\"a\"><span class=\"b\">/*</span></span></code>\n\
         <code><span class=\"a\"><span class=\"b\">*/</span></span>y</code>\n"
    );
}

#[test]
fn a_span_around_nothing_is_taken_back() {
    let mut painter = Painter::new();
    let marks = Reading::Marks(vec![mark(1, vec![open("a")]), mark(1, vec![SpanEdit::Close])]);
    assert!(painter.paint_line("xy\n", &marks, true));
    assert_eq!(painter.html(), "<code>xy</code>\n");
}

#[test]
fn closing_at_the_start_of_a_line_keeps_the_line_before() {
    let mut painter = Painter::new();
    assert!(painter.paint_line("x\n", &Reading::Marks(vec![mark(0, vec![open("a")])]), true));
    assert_eq!(painter.html(), "<code><span class=\"a\">x</span></code>\n");
    let marks = Reading::Marks(vec![mark(0, vec![SpanEdit::Close])]);
    assert!(painter.paint_line("y\n", &marks, true));
    assert_eq!(
        painter.html(),
        "<code><span class=\"a\">x</span></code>\n<code><span class=\"a\"></span>y</code>\n"
    );
    let mut painter = Painter::new();
    assert!(painter.paint_line("x\n", &Reading::Marks(vec![mark(0, vec![open("a")])]), false));
    let marks = Reading::Marks(vec![mark(0, vec![SpanEdit::Close])]);
    assert!(painter.paint_line("y\n", &marks, false));
    painter.end();
    assert_eq!(painter.html(), "<span class=\"a\">x\n</span>y\n");
}

#[test]
fn a_bare_span_around_a_line_end_alone_is_taken_back() {
    let mut painter = Painter::new();
    assert!(painter.paint_line("x\n", &Reading::Marks(vec![mark(2, vec![open("a")])]), false));
    assert_eq!(painter.html(), "x\n<span class=\"a\">");
    let marks = Reading::Marks(vec![mark(0, vec![SpanEdit::Close])]);
    assert!(painter.paint_line("y\n", &marks, false));
    painter.end();
    assert_eq!(painter.html(), "x\ny\n");
    let mut painter = Painter::new();
    assert!(painter.paint_line("x\n", &Reading::Marks(vec![mark(2, vec![open("a")])]), true));
    let marks = Reading::Marks(vec![mark(0, vec![SpanEdit::Close])]);
    assert!(painter.paint_line("y\n", &marks, true));
    assert_eq!(
        painter.html(),
        "<code>x<span class=\"a\"></span></code>\n<code><span class=\"a\"></span>y</code>\n"
    );
}

#[test]
fn bare_lines_are_closed_at_the_end() {
    let mut painter = Painter::new();
    let marks = Reading::Marks(vec![mark(0, vec![open("a")])]);
    assert!(painter.paint_line("x\n", &marks, false));
    assert!(painter.paint_line("y\n", &Reading::Marks(Vec::new()), false));
    painter.end();
    assert_eq!(painter.html(), "<span class=\"a\">x\ny\n</span>");
}

#[test]
fn a_line_that_cannot_be_read_ends_the_page() {
    let mut painter = Painter::new();
    assert!(painter.paint_line("x\n", &Reading::Long, true));
    assert!(!painter.paint_line("y\n", &Reading::Unreadable, true));
    assert_eq!(painter.html(), "<code>x</code>\n<code>");
    let mut painter = Painter::new();
    let marks = Reading::Broken(vec![mark(1, vec![open("a")])]);
    assert!(!painter.paint_line("xy\n", &marks, true));
    assert_eq!(painter.html(), "<code>x<span class=\"a\">");
}

#[test]
fn text_that_ends_where_a_line_starts_is_kept() {
    let set = syntaxes();
    let content = "print <<E;\nfoo\nE\nprint 1;\n";
    let html = highlight::format_file(content, "pl", &set).unwrap();
    assert_eq!(shown(&html), content);
    assert_eq!(html.lines().count(), 4);
    for line in html.lines() {
        assert_eq!(count(line, "<span"), count(line, "</span>"));
    }
    let mut bare = String::new();
    highlight::format_file_inner(&mut bare, content, "pl", &set, false).unwrap();
    assert_eq!(shown(&bare), content);
}

#[test]
fn only_unknown_extensions_need_plain_text() {
    let definition = "name: Digits\nfile_extensions: [num]\nscope: source.num\ncontexts:\n  main:\n    - match: '[0-9]+'\n      scope: number\n";
    let mut builder = SyntaxSetBuilder::new();
    builder.add(SyntaxDefinition::load_from_str(definition, true, None).unwrap());
    let set = builder.build();
    assert!(!syntax::has_plain_text(&set));
    assert_eq!(syntax::find_syntax(&set, "num").name, "Digits");
    assert_eq!(
        highlight::format_file("a1\n", "num", &set).unwrap(),
        "<code><span class=\"source num\">a<span class=\"number\">1</span></span></code>\n"
    );
}

/// A pattern with a text for each of its references to earlier groups.
fn without_references(pattern: &str, text: &str) -> String {
    let mut out = String::new();
    let mut chars = pattern.chars();
    while let Some(c) = chars.next() {
        if c != '\\' {
            out.push(c);
            continue;
        }
        match chars.next() {
            Some(d) if d.is_ascii_digit() => out.push_str(text),
            Some(d) => {
                out.push('\\');
                out.push(d);
            }
            None => out.push('\\'),
        }
    }
    out
}

#[test]
fn the_default_syntaxes_are_linked() {
    let set = syntaxes();
    assert!(set.find_unlinked_contexts().is_empty());
    let mut patterns = 0;
    for definition in set.clone().into_builder().syntaxes() {
        let name = &definition.name;
        assert!(definition.contexts.contains_key("__start"), "{}", name);
        for context in definition.contexts.values() {
            // including does not go on without end
            assert!(context_iter(&set, context).take(100_000).count() < 100_000, "{}", name);
            for pattern in &context.patterns {
                let pattern = match pattern {
                    // a name that stands for nothing is passed over
                    Pattern::Include(ContextReference::Named { .. }) => continue,
                    Pattern::Include(reference) => {
                        assert!(reference.resolve(&set).is_ok(), "{}: {:?}", name, reference);
                        continue;
                    }
                    Pattern::Match(pattern) => pattern,
                };
                let written = pattern.regex.regex_str();
                let texts = if pattern.has_captures {
                    ["", "x", "x y", "\\(\\[\\{"]
                        .iter()
                        .map(|text| without_references(written, text))
                        .collect()
                } else {
                    vec![written.to_owned()]
                };
                for text in texts {
                    assert!(Regex::try_compile(&text).is_none(), "{}: {}", name, text);
                }
                if let MatchOperation::Push(references) | MatchOperation::Set(references) =
                    &pattern.operation
                {
                    assert!(references.iter().all(|r| r.resolve(&set).is_ok()), "{}", name);
                }
                assert!(
                    pattern.with_prototype.iter().all(|r| r.resolve(&set).is_ok()),
                    "{}",
                    name
                );
                patterns += 1;
            }
        }
    }
    assert!(patterns > 1000);
}

#[test]
fn every_default_syntax_can_be_started() {
    let set = syntaxes();
    let content = "#!/bin/sh\n<?php /* a */ ?>\n{ \"b\": 'c' }\n\n  - <d e=\"f\">g</d> // h\n\\end\n=begin\n```\n";
    for syntax in set.syntaxes() {
        let mut state = ParseState::new(syntax);
        for line in content.split_inclusive('\n') {
            assert!(state.parse_line(line, &set).is_ok(), "{}", syntax.name);
        }
    }
}
