//! What a path in a repository leads to: a file to show or a directory to list.

use syntect::parsing::SyntaxSet;
use vstd::prelude::*;
use vstd::utf8::*;

use crate::highlight::{self, FormatError};
use crate::{markup, paths, scope_laws, syntax, text};

verus! {

// What a repository holds

/// What an entry of a directory refers to.
#[derive(Clone, Copy, Debug)]
pub enum ObjectKind {
    /// A file, with its size in bytes.
    Blob(usize),
    /// A directory.
    Tree,
    /// Anything else.
    Other,
}

/// An entry of a directory as the repository holds it.
pub struct TreeEntry {
    pub name: Vec<u8>,
    pub mode: i32,
    pub object: ObjectKind,
}

/// What was found at a path.
pub enum Found {
    /// A directory, with its entries.
    Tree(Vec<TreeEntry>),
    /// A file.
    Blob {
        name: Vec<u8>,
        mode: i32,
        content: Vec<u8>,
        /// Whether the content is no text.
        binary: bool,
    },
    /// Anything else.
    Other,
}

// What is shown of it

/// What a path leads to.
pub enum PathDestination {
    Tree(Vec<TreeItem>),
    File(FileWithContent),
}

/// An entry of a directory.
pub enum TreeItem {
    Tree(Tree),
    File(File),
}

/// A directory in a directory.
#[derive(Debug)]
pub struct Tree {
    pub mode: i32,
    pub name: String,
    pub path: Vec<u8>,
}

/// A file in a directory.
#[derive(Debug)]
pub struct File {
    pub mode: i32,
    pub size: usize,
    pub name: String,
    pub path: Vec<u8>,
}

/// A file and what is in it.
#[derive(Debug)]
pub struct FileWithContent {
    pub metadata: File,
    pub content: Content,
}

/// What is in a file.
#[derive(Debug)]
pub enum Content {
    Text(String),
    Binary(Vec<u8>),
}

/// Why a path could not be shown.
#[derive(Clone, Copy, Debug, PartialEq, Eq, Structural)]
pub enum PathError {
    /// There is neither a file nor a directory.
    NeitherTreeNorBlob,
    /// The file could not be highlighted.
    Format(FormatError),
}

// Their models

/// An entry of a directory.
#[verifier::ext_equal]
pub enum Item {
    Tree { mode: i32, name: Seq<char>, path: Seq<u8> },
    File { mode: i32, size: usize, name: Seq<char>, path: Seq<u8> },
}

/// What is in a file.
#[verifier::ext_equal]
pub enum Shown {
    Text(Seq<char>),
    Binary(Seq<u8>),
}

/// What a path leads to.
#[verifier::ext_equal]
pub enum Destination {
    Tree(Seq<Item>),
    File(Item, Shown),
}

impl View for File {
    type V = Item;

    open spec fn view(&self) -> Item {
        Item::File { mode: self.mode, size: self.size, name: self.name@, path: self.path@ }
    }
}

impl View for TreeItem {
    type V = Item;

    open spec fn view(&self) -> Item {
        match self {
            TreeItem::Tree(tree) => Item::Tree {
                mode: tree.mode,
                name: tree.name@,
                path: tree.path@,
            },
            TreeItem::File(file) => file@,
        }
    }
}

impl View for Content {
    type V = Shown;

    open spec fn view(&self) -> Shown {
        match self {
            Content::Text(written) => Shown::Text(written@),
            Content::Binary(bytes) => Shown::Binary(bytes@),
        }
    }
}

impl View for PathDestination {
    type V = Destination;

    open spec fn view(&self) -> Destination {
        match self {
            PathDestination::Tree(items) => Destination::Tree(item_views(items@)),
            PathDestination::File(file) => Destination::File(file.metadata@, file.content@),
        }
    }
}

/// The models of entries.
pub open spec fn item_views(items: Seq<TreeItem>) -> Seq<Item> {
    items.map_values(|item: TreeItem| item@)
}

/// The path of something that lies at a path and has a name.
pub open spec fn path_of(path: Seq<u8>, name: Seq<u8>) -> Seq<u8> {
    paths::joined(path, encode_utf8(text::lossy(name)), paths::SLASH)
}

/// What is shown of an entry of the directory at a path, if anything is.
pub open spec fn item(path: Seq<u8>, entry: TreeEntry) -> Option<Item> {
    let name = text::lossy(entry.name@);
    match entry.object {
        ObjectKind::Blob(size) => Some(
            Item::File { mode: entry.mode, size, name, path: path_of(path, entry.name@) },
        ),
        ObjectKind::Tree => Some(
            Item::Tree { mode: entry.mode, name, path: path_of(path, entry.name@) },
        ),
        ObjectKind::Other => None,
    }
}

/// What is shown of a directory.
pub open spec fn listed(path: Seq<u8>, entries: Seq<TreeEntry>) -> Seq<Item>
    decreases entries.len(),
{
    if entries.len() == 0 {
        seq![]
    } else {
        match item(path, entries.last()) {
            Some(item) => listed(path, entries.drop_last()).push(item),
            None => listed(path, entries.drop_last()),
        }
    }
}

/// What is shown of the content of a file. Where it is to be formatted, text is
/// highlighted and nothing is shown of anything else.
pub open spec fn shown(
    content: Seq<u8>,
    binary: bool,
    formatted: bool,
    hint: Seq<char>,
    set: SyntaxSet,
) -> Result<Shown, FormatError> {
    if formatted && binary {
        Ok(Shown::Binary(seq![]))
    } else if formatted {
        let work = highlight::text_worked(text::lossy(content), hint, set, true);
        match work.failure {
            None => Ok(
                Shown::Text(
                    markup::markup(
                        highlight::text_page(text::lossy(content), hint, set, true).tokens,
                    ),
                ),
            ),
            Some(failure) => Err(failure),
        }
    } else if binary {
        Ok(Shown::Binary(content))
    } else {
        Ok(Shown::Text(text::lossy(content)))
    }
}

/// What is shown of what was found at a path.
pub open spec fn destination(
    path: Seq<u8>,
    found: Found,
    formatted: bool,
    set: SyntaxSet,
) -> Result<Destination, PathError> {
    match found {
        Found::Tree(entries) => Ok(Destination::Tree(listed(path, entries@))),
        Found::Blob { name, mode, content, binary } => {
            let full = path_of(path, name@);
            match shown(content@, binary, formatted, paths::language_hint(full), set) {
                Ok(shown) => Ok(
                    Destination::File(
                        Item::File {
                            mode,
                            size: content@.len() as usize,
                            name: text::lossy(name@),
                            path: full,
                        },
                        shown,
                    ),
                ),
                Err(failure) => Err(PathError::Format(failure)),
            }
        },
        Found::Other => Err(PathError::NeitherTreeNorBlob),
    }
}

/// The bytes of a path, or none for the top.
pub open spec fn place(path: Option<&[u8]>) -> Seq<u8> {
    match path {
        Some(path) => path@,
        None => seq![],
    }
}

/// Whether a set can be used to format what was found at a path: only text needs
/// it, and for the language that its path tells.
pub open spec fn can_format(path: Seq<u8>, found: Found, set: SyntaxSet) -> bool {
    match found {
        Found::Blob { name, mode, content, binary } => !binary ==> syntax::usable(
            set,
            paths::language_hint(path_of(path, name@)),
        ),
        _ => true,
    }
}

/// Lists the directory at a path.
pub fn list(path: &[u8], entries: &Vec<TreeEntry>) -> (r: Vec<TreeItem>)
    ensures
        item_views(r@) == listed(path@, entries@),
{
    let mut items: Vec<TreeItem> = Vec::new();
    assert(item_views(items@) == listed(path@, entries@.take(0)));
    for k in 0..entries.len()
        invariant
            item_views(items@) == listed(path@, entries@.take(k as int)),
    {
        let entry = &entries[k];
        assert(entries@.take(k + 1).drop_last() == entries@.take(k as int));
        let name = text::from_utf8_lossy(entry.name.as_slice());
        let full = paths::join(path, name.as_str().as_bytes());
        let ghost before = items@;
        match entry.object {
            ObjectKind::Blob(size) => {
                let file = TreeItem::File(File { mode: entry.mode, size, name, path: full });
                let ghost last = file@;
                items.push(file);
                assert(item_views(items@) == item_views(before).push(last));
            },
            ObjectKind::Tree => {
                let tree = TreeItem::Tree(Tree { mode: entry.mode, name, path: full });
                let ghost last = tree@;
                items.push(tree);
                assert(item_views(items@) == item_views(before).push(last));
            },
            ObjectKind::Other => {},
        }
    }
    assert(entries@.take(entries@.len() as int) == entries@);
    items
}

/// Makes the content of a file ready to be shown.
pub fn show(
    content: &Vec<u8>,
    binary: bool,
    formatted: bool,
    hint: &str,
    syntax_set: &SyntaxSet,
) -> (r: Result<Content, FormatError>)
    requires
        formatted && !binary ==> syntax::usable(*syntax_set, hint@),
    ensures
        match r {
            Ok(made) => shown(content@, binary, formatted, hint@, *syntax_set) == Ok::<
                Shown,
                FormatError,
            >(made@),
            Err(failure) => shown(content@, binary, formatted, hint@, *syntax_set) == Err::<
                Shown,
                FormatError,
            >(failure),
        },
        formatted && binary ==> (r matches Ok(Content::Binary(bytes)) && bytes@.len() == 0),
        !formatted && binary ==> (r matches Ok(Content::Binary(bytes)) && bytes@ == content@),
        !formatted && !binary ==> (r matches Ok(Content::Text(written)) && text::spells(
            written@,
            content@,
        )),
        formatted && !binary ==> {
            &&& r matches Ok(made) ==> made is Text
            &&& r is Ok <==> scope_laws::readable(
                text::lines(text::lossy(content@)),
                syntax::syntax_for(*syntax_set, hint@),
                *syntax_set,
            )
        },
{
    proof {
        text::law_text_keeps_the_bytes(content@);
        law_formatted_text_is_text(content@, hint@, *syntax_set);
    }
    if formatted && binary {
        let nothing: Vec<u8> = Vec::new();
        assert(nothing@ == Seq::<u8>::empty());
        Ok(Content::Binary(nothing))
    } else if formatted {
        let written = text::from_utf8_lossy(content.as_slice());
        match highlight::format_file(written.as_str(), hint, syntax_set) {
            Ok(html) => Ok(Content::Text(html)),
            Err(failure) => Err(failure),
        }
    } else if binary {
        let mut bytes: Vec<u8> = Vec::new();
        bytes.extend_from_slice(content.as_slice());
        assert(bytes@ == content@);
        Ok(Content::Binary(bytes))
    } else {
        Ok(Content::Text(text::from_utf8_lossy(content.as_slice())))
    }
}

/// Makes what was found at a path ready to be shown. Without a path it is the
/// directory at the top that was looked up.
pub fn path_destination(
    path: Option<&[u8]>,
    found: &Found,
    formatted: bool,
    syntax_set: &SyntaxSet,
) -> (r: Result<PathDestination, PathError>)
    requires
        formatted ==> can_format(place(path), *found, *syntax_set),
        path is None ==> found is Tree,
    ensures
        ({
            let at = place(path);
            match r {
                Ok(made) => destination(at, *found, formatted, *syntax_set) == Ok::<
                    Destination,
                    PathError,
                >(made@),
                Err(failure) => destination(at, *found, formatted, *syntax_set) == Err::<
                    Destination,
                    PathError,
                >(failure),
            }
        }),
        *found is Other ==> r == Err::<PathDestination, PathError>(PathError::NeitherTreeNorBlob),
        *found matches Found::Tree(entries) ==> (r matches Ok(PathDestination::Tree(items))
            && item_views(items@) == listed(
            match path {
                Some(path) => path@,
                None => seq![],
            },
            entries@,
        )),
        *found matches Found::Blob { name, mode, content, binary } ==> match r {
            Ok(PathDestination::File(file)) => {
                &&& file.metadata.mode == mode
                &&& file.metadata.size == content@.len()
                &&& text::spells(file.metadata.name@, name@)
                &&& path matches Some(path) && file.metadata.path@ == paths::joined(
                    path@,
                    encode_utf8(file.metadata.name@),
                    0x2fu8,
                )
                &&& binary && formatted ==> (file.content matches Content::Binary(bytes)
                    && bytes@.len() == 0)
                &&& binary && !formatted ==> (file.content matches Content::Binary(bytes)
                    && bytes@ == content@)
                &&& !binary ==> file.content is Text
                &&& !binary && !formatted ==> (file.content matches Content::Text(written)
                    && text::spells(written@, content@))
            },
            Ok(_) => false,
            Err(failure) => failure is Format && formatted && !binary,
        },
{
    let top: Vec<u8> = Vec::new();
    assert(top@ == Seq::<u8>::empty());
    let at: &[u8] = match path {
        Some(path) => path,
        None => top.as_slice(),
    };
    match found {
        Found::Tree(entries) => Ok(PathDestination::Tree(list(at, entries))),
        Found::Blob { name, mode, content, binary } => {
            proof {
                text::law_text_keeps_the_bytes(name@);
            }
            let name = text::from_utf8_lossy(name.as_slice());
            let full = paths::join(at, name.as_str().as_bytes());
            let hint = paths::find_language_hint(full.as_slice());
            match show(content, *binary, formatted, hint.as_str(), syntax_set) {
                Ok(shown) => {
                    let size: usize = content.len();
                    let metadata = File { mode: *mode, size, name, path: full };
                    Ok(PathDestination::File(FileWithContent { metadata, content: shown }))
                },
                Err(failure) => Err(PathError::Format(failure)),
            }
        },
        Found::Other => Err(PathError::NeitherTreeNorBlob),
    }
}

impl Content {
    /// The media type that content is sent under.
    pub fn content_type(&self) -> (r: &'static str)
        ensures
            r@ == match self@ {
                Shown::Text(_) => "text/plain; charset=UTF-8"@,
                Shown::Binary(_) => "application/octet-stream"@,
            },
    {
        match self {
            Content::Text(_) => "text/plain; charset=UTF-8",
            Content::Binary(_) => "application/octet-stream",
        }
    }
}

// The text that introduces a repository

/// How an introduction is written.
#[derive(Copy, Clone, Debug, PartialEq, Eq, Structural)]
pub enum ReadmeFormat {
    Markdown,
    Plaintext,
}

/// The names that an introduction can have, the first choice first.
pub open spec fn readme_names() -> Seq<Seq<char>> {
    seq!["README.md"@, "README"@, "README.txt"@, "readme.md"@]
}

/// The names that an introduction can have, the first choice first.
pub fn readme_files() -> (r: Vec<&'static str>)
    ensures
        r@.map_values(|name: &'static str| name@) == readme_names(),
        r@.len() == 4,
        r@[0]@ == "README.md"@,
        r@[1]@ == "README"@,
        r@[2]@ == "README.txt"@,
        r@[3]@ == "readme.md"@,
{
    let names: Vec<&'static str> = vec!["README.md", "README", "README.txt", "readme.md"];
    assert(names@.map_values(|name: &'static str| name@) == readme_names());
    names
}

/// How an introduction with a name is written: as Markdown if the extension of
/// the name is `md`.
pub open spec fn readme_format(name: Seq<char>) -> ReadmeFormat {
    match paths::file_name(encode_utf8(name)) {
        Some(name) => if paths::extension(name) == Some(seq![0x6du8, 0x64u8]) {
            ReadmeFormat::Markdown
        } else {
            ReadmeFormat::Plaintext
        },
        None => ReadmeFormat::Plaintext,
    }
}

/// The first of the files that is there and holds text, from a place on.
pub open spec fn first_text(files: Seq<Option<Vec<u8>>>, from: int) -> Option<int>
    decreases files.len() - from,
{
    if from >= files.len() {
        None
    } else {
        match files[from] {
            Some(content) => if valid_utf8(content@) {
                Some(from)
            } else {
                first_text(files, from + 1)
            },
            None => first_text(files, from + 1),
        }
    }
}

/// Whether a file is there and holds text.
pub open spec fn holds_text(files: Seq<Option<Vec<u8>>>, k: int) -> bool {
    files[k] matches Some(content) && valid_utf8(content@)
}

/// Whether a file is the first one that is there and holds text.
pub open spec fn is_first_text(files: Seq<Option<Vec<u8>>>, k: int) -> bool {
    &&& 0 <= k < files.len()
    &&& holds_text(files, k)
    &&& forall|i: int| 0 <= i < k ==> !#[trigger] holds_text(files, i)
}

/// How the introduction with a name is written.
pub fn find_readme_format(name: &str) -> (r: ReadmeFormat)
    ensures
        r == readme_format(name@),
{
    if paths::has_extension(name.as_bytes(), &[0x6du8, 0x64u8]) {
        ReadmeFormat::Markdown
    } else {
        ReadmeFormat::Plaintext
    }
}

/// Picks the introduction. The files are given in the order of their names,
/// with the content of each that is there.
pub fn pick_readme<'a>(files: &'a Vec<Option<Vec<u8>>>) -> (r: Option<(ReadmeFormat, &'a str)>)
    requires
        files@.len() == readme_names().len(),
    ensures
        match first_text(files@, 0) {
            Some(k) => {
                &&& 0 <= k < files@.len()
                &&& r matches Some((format, content)) && format == readme_format(readme_names()[k])
                    && content@ == decode_utf8(files@[k]->0@)
            },
            None => r is None,
        },
        match r {
            Some((format, content)) => exists|k: int|
                0 <= k < 4 && #[trigger] is_first_text(files@, k) && encode_utf8(content@)
                    == files@[k]->0@ && (format is Markdown <==> k == 0 || k == 3),
            None => forall|i: int| 0 <= i < 4 ==> !#[trigger] holds_text(files@, i),
        },
{
    proof {
        law_first_readme_wins(files@, 0);
        lemma_readme_names_tell_the_format();
    }
    let names = readme_files();
    for k in 0..files.len()
        invariant
            names@.map_values(|name: &'static str| name@) == readme_names(),
            files@.len() == readme_names().len(),
            first_text(files@, 0) == first_text(files@, k as int),
    {
        assert(names@.map_values(|name: &'static str| name@)[k as int] == names@[k as int]@);
        match &files[k] {
            Some(content) => match text::from_utf8(content.as_slice()) {
                Some(written) => {
                    proof {
                        law_first_readme_wins(files@, 0);
                        lemma_readme_names_tell_the_format();
                        assert(is_first_text(files@, k as int));
                        decode_utf8_encode_utf8(content@);
                    }
                    return Some((find_readme_format(names[k]), written));
                },
                None => {},
            },
            None => {},
        }
    }
    None
}

/// The extensions to Markdown with which an introduction is read.
#[derive(Clone, Copy, Debug, PartialEq, Eq, Structural)]
pub struct MarkdownExtensions {
    pub autolink: bool,
    pub footnotes: bool,
    pub strikethrough: bool,
    pub table: bool,
    pub tagfilter: bool,
    pub tasklist: bool,
}

/// The extensions of GitHub Flavored Markdown, and footnotes.
pub fn readme_extensions() -> (r: MarkdownExtensions)
    ensures
        r.autolink && r.footnotes && r.strikethrough && r.table && r.tagfilter && r.tasklist,
{
    MarkdownExtensions {
        autolink: true,
        footnotes: true,
        strikethrough: true,
        table: true,
        tagfilter: true,
        tasklist: true,
    }
}

// The laws

/// A directory is listed entry by entry, in the order of its entries: the list
/// of two parts in a row is the list of the first and that of the second.
pub proof fn law_listing_by_parts(path: Seq<u8>, a: Seq<TreeEntry>, b: Seq<TreeEntry>)
    ensures
        listed(path, a + b) == listed(path, a) + listed(path, b),
    decreases b.len(),
{
    if b.len() == 0 {
        assert(a + b == a);
        assert(listed(path, a) + listed(path, b) == listed(path, a));
    } else {
        law_listing_by_parts(path, a, b.drop_last());
        assert((a + b).drop_last() == a + b.drop_last());
        assert(listed(path, a + b) == listed(path, a) + listed(path, b));
    }
}

/// A list shows the files and directories among the entries and nothing else.
pub proof fn law_listing_is_complete(path: Seq<u8>, entries: Seq<TreeEntry>)
    ensures
        forall|k: int|
            0 <= k < entries.len() && !((#[trigger] entries[k]).object is Other) ==> listed(
                path,
                entries,
            ).contains(item(path, entries[k])->0),
        forall|i: int|
            0 <= i < listed(path, entries).len() ==> exists|k: int|
                0 <= k < entries.len() && item(path, #[trigger] entries[k]) == Some(
                    #[trigger] listed(path, entries)[i],
                ),
    decreases entries.len(),
{
    if entries.len() > 0 {
        let before = entries.drop_last();
        let shorter = listed(path, before);
        let longer = listed(path, entries);
        law_listing_is_complete(path, before);
        assert forall|k: int|
            0 <= k < entries.len() && !((#[trigger] entries[k]).object is Other)
            implies longer.contains(item(path, entries[k])->0) by {
            if k < before.len() {
                assert(entries[k] == before[k]);
                let i = shorter.index_of(item(path, before[k])->0);
                assert(longer[i] == shorter[i]);
            } else {
                assert(longer.last() == item(path, entries[k])->0);
            }
        }
        assert forall|i: int| 0 <= i < longer.len() implies exists|k: int|
            0 <= k < entries.len() && item(path, #[trigger] entries[k]) == Some(
                #[trigger] longer[i],
            ) by {
            if i < shorter.len() {
                let k = choose|k: int|
                    0 <= k < before.len() && item(path, #[trigger] before[k]) == Some(shorter[i]);
                assert(entries[k] == before[k]);
            } else {
                assert(item(path, entries[entries.len() - 1]) == Some(longer[i]));
            }
        }
    }
}

/// Text that is asked for as it is comes as it is: the bytes that are sent are
/// those of the file.
pub proof fn law_text_is_sent_unchanged(content: Seq<u8>, hint: Seq<char>, set: SyntaxSet)
    requires
        valid_utf8(content),
    ensures
        shown(content, false, false, hint, set) matches Ok(Shown::Text(written))
            && encode_utf8(written) == content,
{
    decode_utf8_encode_utf8(content);
}

/// Anything that is no text comes as it is, where it is not to be formatted, and
/// is left out where it is.
pub proof fn law_binary_content_is_never_formatted(
    content: Seq<u8>,
    hint: Seq<char>,
    set: SyntaxSet,
)
    ensures
        shown(content, true, false, hint, set) == Ok::<Shown, FormatError>(Shown::Binary(content)),
        shown(content, true, true, hint, set) matches Ok(Shown::Binary(bytes)) && bytes.len() == 0,
{
}

/// Text that is to be formatted is always shown as text, if every line of it can
/// be read, and otherwise it is an error.
pub proof fn law_formatted_text_is_text(content: Seq<u8>, hint: Seq<char>, set: SyntaxSet)
    ensures
        match shown(content, false, true, hint, set) {
            Ok(Shown::Text(_)) => scope_laws::readable(
                text::lines(text::lossy(content)),
                syntax::syntax_for(set, hint),
                set,
            ),
            Ok(Shown::Binary(_)) => false,
            Err(_) => !scope_laws::readable(
                text::lines(text::lossy(content)),
                syntax::syntax_for(set, hint),
                set,
            ),
        },
{
    scope_laws::law_readable_text_is_highlighted(text::lossy(content), hint, set, true);
}

/// Text that is to be formatted and can be read is shown line by line: what is
/// shown is the HTML of one element for each line, in which the text of the line
/// is shown and each character stands in the spans of its scopes. This holds
/// where no line ends more scopes than hold.
pub proof fn law_formatted_text_is_shown_line_by_line(
    content: Seq<u8>,
    hint: Seq<char>,
    set: SyntaxSet,
)
    requires
        scope_laws::readable(
            text::lines(text::lossy(content)),
            syntax::syntax_for(set, hint),
            set,
        ),
        scope_laws::tidy(text::lines(text::lossy(content)), syntax::syntax_for(set, hint), set),
    ensures
        exists|tokens: Seq<markup::Token>, bodies: Seq<Seq<markup::Token>>|
            {
                &&& #[trigger] scope_laws::highlighted(
                    tokens,
                    bodies,
                    text::lines(text::lossy(content)),
                    syntax::syntax_for(set, hint),
                    set,
                )
                &&& shown(content, false, true, hint, set) == Ok::<Shown, FormatError>(
                    Shown::Text(markup::markup(tokens)),
                )
            },
{
    let lines = text::lines(text::lossy(content));
    let syntax = syntax::syntax_for(set, hint);
    scope_laws::law_readable_text_is_highlighted(text::lossy(content), hint, set, true);
    scope_laws::law_characters_wear_their_scopes(text::lossy(content), hint, set);
    let tokens = highlight::text_page(text::lossy(content), hint, set, true).tokens;
    let bodies = choose|bodies: Seq<Seq<markup::Token>>|
        scope_laws::highlighted(tokens, bodies, lines, syntax, set);
    assert(scope_laws::highlighted(tokens, bodies, lines, syntax, set));
}

/// What is shown of an entry is what the repository says of it: its name, its
/// mode, the size of a file, and a path that is that of the directory with the
/// name at its end. Entries that are neither files nor directories are left out.
pub proof fn law_entry_is_shown_as_it_is(path: Seq<u8>, entry: TreeEntry)
    ensures
        match entry.object {
            ObjectKind::Blob(bytes) => {
                &&& listed(path, seq![entry]).len() == 1
                &&& listed(path, seq![entry])[0] matches Item::File {
                    mode,
                    size,
                    name,
                    path: full,
                }
                &&& mode == entry.mode && size == bytes && text::spells(name, entry.name@)
                &&& full == paths::joined(path, encode_utf8(name), 0x2fu8)
            },
            ObjectKind::Tree => {
                &&& listed(path, seq![entry]).len() == 1
                &&& listed(path, seq![entry])[0] matches Item::Tree { mode, name, path: full }
                &&& mode == entry.mode && text::spells(name, entry.name@)
                &&& full == paths::joined(path, encode_utf8(name), 0x2fu8)
            },
            ObjectKind::Other => listed(path, seq![entry]).len() == 0,
        },
{
    text::law_text_keeps_the_bytes(entry.name@);
    assert(seq![entry].drop_last() == Seq::<TreeEntry>::empty());
    assert(listed(path, seq![entry].drop_last()) == Seq::<Item>::empty());
}

/// The page of a file tells its mode, its name, its path and the size of its
/// content, and highlights it for the language that its path tells.
pub proof fn law_file_is_shown_as_it_is(
    path: Seq<u8>,
    name: Vec<u8>,
    mode: i32,
    content: Vec<u8>,
    binary: bool,
    formatted: bool,
    set: SyntaxSet,
)
    requires
        content@.len() <= usize::MAX,
    ensures
        ({
            let full = paths::joined(path, encode_utf8(text::lossy(name@)), 0x2fu8);
            let hint = paths::language_hint(full);
            match destination(path, Found::Blob { name, mode, content, binary }, formatted, set) {
                Ok(Destination::File(item, made)) => {
                    &&& item == Item::File {
                        mode,
                        size: content@.len() as usize,
                        name: text::lossy(name@),
                        path: full,
                    }
                    &&& shown(content@, binary, formatted, hint, set) == Ok::<Shown, FormatError>(
                        made,
                    )
                },
                Ok(_) => false,
                Err(PathError::Format(failure)) => shown(content@, binary, formatted, hint, set)
                    == Err::<Shown, FormatError>(failure),
                Err(_) => false,
            }
        }),
{
}

/// An introduction is Markdown if and only if its name ends in `.md` and is more
/// than that.
pub proof fn law_markdown_is_told_by_the_name(name: Seq<char>)
    requires
        !encode_utf8(name).contains(0x2f),
    ensures
        readme_format(name) is Markdown <==> {
            let bytes = encode_utf8(name);
            bytes.len() > 3 && bytes.skip(bytes.len() - 3) == seq![0x2eu8, 0x6du8, 0x64u8]
        },
{
    let bytes = encode_utf8(name);
    let ends = bytes.len() > 3 && bytes.skip(bytes.len() - 3) == seq![0x2eu8, 0x6du8, 0x64u8];
    paths::lemma_name_of_one_part(bytes);
    paths::lemma_after_last(bytes, paths::DOT);
    let at = paths::after_last(bytes, paths::DOT);
    if ends {
        let n = bytes.len() as int;
        let tail = bytes.skip(n - 3);
        assert(bytes[n - 3] == tail[0]);
        assert(bytes[n - 2] == tail[1]);
        assert(bytes[n - 1] == tail[2]);
        assert(at == n - 2);
        assert(bytes.skip(at) == seq![0x6du8, 0x64u8]);
    }
    if readme_format(name) is Markdown {
        let tail = bytes.skip(at);
        let wanted = seq![0x6du8, 0x64u8];
        assert(paths::file_name(bytes) == Some(bytes));
        assert(paths::extension(bytes) == Some(wanted));
        assert(tail == wanted);
        assert(tail.len() == bytes.len() - at);
        assert(wanted.len() == 2);
        assert(bytes[at] == tail[0]);
        assert(bytes[at + 1] == tail[1]);
        assert(bytes[at - 1] == 0x2e);
        assert(bytes.skip(bytes.len() - 3) == seq![0x2eu8, 0x6du8, 0x64u8]);
    }
}

proof fn lemma_readme_names_tell_the_format()
    ensures
        readme_names().len() == 4,
        readme_format(readme_names()[0]) is Markdown,
        readme_format(readme_names()[1]) is Plaintext,
        readme_format(readme_names()[2]) is Plaintext,
        readme_format(readme_names()[3]) is Markdown,
{
    reveal_strlit("README.md");
    reveal_strlit("README");
    reveal_strlit("README.txt");
    reveal_strlit("readme.md");
    let names = readme_names();
    assert forall|k: int| 0 <= k < 4 implies !encode_utf8(#[trigger] names[k]).contains(0x2f)
        && encode_utf8(names[k]).len() == names[k].len() && forall|i: int|
        0 <= i < names[k].len() ==> #[trigger] encode_utf8(names[k])[i] == names[k][i] as u8 by {
        is_ascii_chars_encode_utf8(names[k]);
    }
    law_markdown_is_told_by_the_name(names[0]);
    law_markdown_is_told_by_the_name(names[1]);
    law_markdown_is_told_by_the_name(names[2]);
    law_markdown_is_told_by_the_name(names[3]);
    assert(encode_utf8(names[0]).skip(6) == seq![0x2eu8, 0x6du8, 0x64u8]);
    assert(encode_utf8(names[3]).skip(6) == seq![0x2eu8, 0x6du8, 0x64u8]);
    assert(encode_utf8(names[1]).skip(3)[0] == 'D' as u8);
    assert(encode_utf8(names[2]).skip(7)[0] == 't' as u8);
}

/// The introduction is the first file that can be one: every file before it is
/// missing or holds no text.
pub proof fn law_first_readme_wins(files: Seq<Option<Vec<u8>>>, from: int)
    requires
        0 <= from <= files.len(),
    ensures
        match first_text(files, from) {
            Some(k) => {
                &&& from <= k < files.len()
                &&& files[k] is Some
                &&& valid_utf8(files[k]->0@)
                &&& forall|i: int|
                    from <= i < k ==> (#[trigger] files[i]) is None || !valid_utf8(files[i]->0@)
            },
            None => forall|i: int|
                from <= i < files.len() ==> (#[trigger] files[i]) is None || !valid_utf8(
                    files[i]->0@,
                ),
        },
    decreases files.len() - from,
{
    if from < files.len() {
        law_first_readme_wins(files, from + 1);
    }
}

}
