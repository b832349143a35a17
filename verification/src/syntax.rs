//! Syntax definitions, the parser that runs them, and the scopes that it finds.
//!
//! The parser is that of the `syntect` crate. What is taken from it on trust
//! stands here.

use syntect::parsing::{
    BasicScopeStackOp, ClearAmount, ParseState, ParsingError, Scope, ScopeError, ScopeStack,
    ScopeStackOp, SyntaxReference, SyntaxSet,
};
use vstd::prelude::*;

use crate::text;

verus! {

/// A set of syntax definitions.
#[verifier::external_type_specification]
#[verifier::external_body]
pub struct ExSyntaxSet(SyntaxSet);

/// One syntax of a set.
#[verifier::external_type_specification]
#[verifier::external_body]
pub struct ExSyntaxReference(SyntaxReference);

/// How far a parser has come in a file.
#[verifier::external_type_specification]
#[verifier::external_body]
pub struct ExParseState(ParseState);

/// A name of what a piece of source text is, made up of atoms.
#[verifier::external_type_specification]
#[verifier::external_body]
pub struct ExScope(Scope);

/// The scopes that hold at a place in a file, the innermost last.
#[verifier::external_type_specification]
#[verifier::external_body]
pub struct ExScopeStack(ScopeStack);

/// Why a line could not be parsed.
#[verifier::external_type_specification]
#[verifier::external_body]
pub struct ExParsingError(ParsingError);

/// Why a change of a stack could not be carried out.
#[verifier::external_type_specification]
#[verifier::external_body]
pub struct ExScopeError(ScopeError);

// Finding a syntax

/// The syntaxes that a set holds, in order.
pub uninterp spec fn syntaxes(set: SyntaxSet) -> Seq<SyntaxReference>;

/// The name of a syntax.
pub uninterp spec fn syntax_name(syntax: SyntaxReference) -> Seq<char>;

/// The file extensions that a syntax is for.
pub uninterp spec fn syntax_extensions(syntax: SyntaxReference) -> Seq<Seq<char>>;

/// Whether a set is linked as it should be: each of its syntaxes has a start
/// context, every pattern in it compiles and leads to contexts that are there, and
/// no context comes back to itself by including others.
pub uninterp spec fn linked(set: SyntaxSet) -> bool;

/// Whether the patterns of a set do no harm when they run: none fails to compile
/// once text that was matched has been put into it, and no contexts replace each
/// other without end where they match nothing.
pub uninterp spec fn tame(set: SyntaxSet) -> bool;

/// The lower-case form of an ASCII letter; other characters are unchanged.
pub open spec fn ascii_lower(c: char) -> char {
    if 'A' <= c <= 'Z' {
        (c as u32 + 32) as char
    } else {
        c
    }
}

/// Whether two texts differ at most in the case of ASCII letters.
pub open spec fn same_but_for_case(a: Seq<char>, b: Seq<char>) -> bool {
    a.len() == b.len() && forall|i: int|
        0 <= i < a.len() ==> ascii_lower(#[trigger] a[i]) == ascii_lower(b[i])
}

/// Whether one of the extensions is the given one.
pub open spec fn lists(extensions: Seq<Seq<char>>, extension: Seq<char>) -> bool {
    exists|i: int|
        0 <= i < extensions.len() && same_but_for_case(#[trigger] extensions[i], extension)
}

/// The last of the syntaxes that is for the extension.
pub open spec fn last_for(found: Seq<SyntaxReference>, extension: Seq<char>) -> Option<
    SyntaxReference,
>
    decreases found.len(),
{
    if found.len() == 0 {
        None
    } else if lists(syntax_extensions(found.last()), extension) {
        Some(found.last())
    } else {
        last_for(found.drop_last(), extension)
    }
}

/// The last of the syntaxes that has the name.
pub open spec fn last_named(found: Seq<SyntaxReference>, name: Seq<char>) -> Option<
    SyntaxReference,
>
    decreases found.len(),
{
    if found.len() == 0 {
        None
    } else if syntax_name(found.last()) == name {
        Some(found.last())
    } else {
        last_named(found.drop_last(), name)
    }
}

/// Whether a set has the syntax for text of no known kind.
pub open spec fn knows_plain_text(set: SyntaxSet) -> bool {
    last_named(syntaxes(set), "Plain Text"@) is Some
}

/// Whether a set can be used to highlight files with an extension: it is linked
/// as it should be, its patterns do no harm, and it has a syntax for them or the
/// one for text of no known kind.
pub open spec fn usable(set: SyntaxSet, extension: Seq<char>) -> bool {
    &&& linked(set)
    &&& tame(set)
    &&& last_for(syntaxes(set), extension) is Some || knows_plain_text(set)
}

/// Whether a set can be used to highlight any text.
pub open spec fn ready(set: SyntaxSet) -> bool {
    linked(set) && tame(set) && knows_plain_text(set)
}

/// The syntax for files with an extension: that of the set, or plain text.
pub open spec fn syntax_for(set: SyntaxSet, extension: Seq<char>) -> SyntaxReference {
    match last_for(syntaxes(set), extension) {
        Some(syntax) => syntax,
        None => last_named(syntaxes(set), "Plain Text"@)->0,
    }
}

/// `SyntaxSet::load_defaults_newlines`: the syntaxes that come with `syntect`.
/// They are read from data that comes with the crate. It was made by adding the
/// syntax for plain text and Sublime Text's own packages to a
/// `SyntaxSetBuilder`. Reading a package gives each syntax a start context and
/// refuses patterns that do not compile, and `build` links the contexts. The
/// tests go through all of the data and find each syntax started, each pattern
/// compiled and what it leads to there, and including to end. That the patterns
/// of these packages do no harm when they run is believed; the data does not show
/// it.
#[verifier::external_body]
fn load_defaults() -> (set: SyntaxSet)
    ensures
        linked(set),
        tame(set),
        knows_plain_text(set),
{
    SyntaxSet::load_defaults_newlines()
}

/// `SyntaxSet::find_syntax_by_name`: the last syntax with the name.
#[verifier::external_body]
fn find_by_name<'a>(set: &'a SyntaxSet, name: &str) -> (found: Option<&'a SyntaxReference>)
    ensures
        match found {
            Some(syntax) => last_named(syntaxes(*set), name@) == Some(*syntax) && syntax_name(
                *syntax,
            ) == name@,
            None => last_named(syntaxes(*set), name@) is None,
        },
{
    set.find_syntax_by_name(name)
}

/// `SyntaxSet::find_syntax_by_extension`: the last syntax that is for the
/// extension, whatever the case of its letters.
#[verifier::external_body]
fn find_by_extension<'a>(set: &'a SyntaxSet, extension: &str) -> (found: Option<
    &'a SyntaxReference,
>)
    ensures
        match found {
            Some(syntax) => last_for(syntaxes(*set), extension@) == Some(*syntax) && lists(
                syntax_extensions(*syntax),
                extension@,
            ),
            None => last_for(syntaxes(*set), extension@) is None,
        },
{
    set.find_syntax_by_extension(extension)
}

/// `SyntaxSet::find_syntax_plain_text`: the syntax with the name `Plain Text`.
/// A set without one makes it panic.
#[verifier::external_body]
fn find_plain_text(set: &SyntaxSet) -> (syntax: &SyntaxReference)
    requires
        knows_plain_text(*set),
    ensures
        last_named(syntaxes(*set), "Plain Text"@) == Some(*syntax),
{
    set.find_syntax_plain_text()
}

/// The syntaxes that come with the parser. They can be used for any text.
pub fn default_syntaxes() -> (set: SyntaxSet)
    ensures
        ready(set),
{
    load_defaults()
}

/// Whether a set has the syntax for text of no known kind.
pub fn has_plain_text(set: &SyntaxSet) -> (r: bool)
    ensures
        r == knows_plain_text(*set),
{
    find_by_name(set, "Plain Text").is_some()
}

/// The syntax for files with an extension.
pub fn find_syntax<'a>(set: &'a SyntaxSet, extension: &str) -> (syntax: &'a SyntaxReference)
    requires
        usable(*set, extension@),
    ensures
        *syntax == syntax_for(*set, extension@),
{
    match find_by_extension(set, extension) {
        Some(syntax) => syntax,
        None => find_plain_text(set),
    }
}

/// What was found in a set is one of its syntaxes.
pub proof fn lemma_found_in_set(set: SyntaxSet, extension: Seq<char>)
    requires
        usable(set, extension),
    ensures
        syntaxes(set).contains(syntax_for(set, extension)),
{
    lemma_last_is_among(syntaxes(set), extension);
    lemma_last_named_is_among(syntaxes(set), "Plain Text"@);
}

proof fn lemma_last_is_among(found: Seq<SyntaxReference>, extension: Seq<char>)
    ensures
        last_for(found, extension) matches Some(syntax) ==> found.contains(syntax),
    decreases found.len(),
{
    if found.len() > 0 {
        let before = found.drop_last();
        lemma_last_is_among(before, extension);
        if lists(syntax_extensions(found.last()), extension) {
            assert(found[found.len() - 1] == found.last());
        } else if let Some(syntax) = last_for(before, extension) {
            assert(found[before.index_of(syntax)] == syntax);
        }
    }
}

proof fn lemma_last_named_is_among(found: Seq<SyntaxReference>, name: Seq<char>)
    ensures
        last_named(found, name) matches Some(syntax) ==> found.contains(syntax),
    decreases found.len(),
{
    if found.len() > 0 {
        let before = found.drop_last();
        lemma_last_named_is_among(before, name);
        if syntax_name(found.last()) == name {
            assert(found[found.len() - 1] == found.last());
        } else if let Some(syntax) = last_named(before, name) {
            assert(found[before.index_of(syntax)] == syntax);
        }
    }
}

/// The syntax for files with an extension is the last one of the set that lists
/// the extension.
pub proof fn law_last_listed_syntax_is_used(set: SyntaxSet, extension: Seq<char>, k: int)
    requires
        0 <= k < syntaxes(set).len(),
        lists(syntax_extensions(syntaxes(set)[k]), extension),
        forall|j: int|
            k < j < syntaxes(set).len() ==> !lists(
                syntax_extensions(#[trigger] syntaxes(set)[j]),
                extension,
            ),
    ensures
        syntax_for(set, extension) == syntaxes(set)[k],
        linked(set) && tame(set) ==> usable(set, extension),
{
    lemma_last_listed(syntaxes(set), extension, k);
}

proof fn lemma_last_listed(found: Seq<SyntaxReference>, extension: Seq<char>, k: int)
    requires
        0 <= k < found.len(),
        lists(syntax_extensions(found[k]), extension),
        forall|j: int|
            k < j < found.len() ==> !lists(syntax_extensions(#[trigger] found[j]), extension),
    ensures
        last_for(found, extension) == Some(found[k]),
    decreases found.len(),
{
    if k < found.len() - 1 {
        assert(!lists(syntax_extensions(found[found.len() - 1]), extension));
        let before = found.drop_last();
        assert(forall|j: int| 0 <= j < before.len() ==> before[j] == found[j]);
        lemma_last_listed(before, extension, k);
    }
}

/// A file whose extension no syntax lists is plain text: the syntax for it is the
/// last one with that name.
pub proof fn law_unlisted_extension_is_plain_text(set: SyntaxSet, extension: Seq<char>, k: int)
    requires
        forall|j: int|
            0 <= j < syntaxes(set).len() ==> !lists(
                syntax_extensions(#[trigger] syntaxes(set)[j]),
                extension,
            ),
        0 <= k < syntaxes(set).len(),
        syntax_name(syntaxes(set)[k]) == "Plain Text"@,
        forall|j: int|
            k < j < syntaxes(set).len() ==> syntax_name(#[trigger] syntaxes(set)[j])
                != "Plain Text"@,
    ensures
        syntax_for(set, extension) == syntaxes(set)[k],
        linked(set) && tame(set) ==> usable(set, extension) && ready(set),
{
    lemma_none_listed(syntaxes(set), extension);
    lemma_last_so_named(syntaxes(set), "Plain Text"@, k);
}

proof fn lemma_none_listed(found: Seq<SyntaxReference>, extension: Seq<char>)
    requires
        forall|j: int|
            0 <= j < found.len() ==> !lists(syntax_extensions(#[trigger] found[j]), extension),
    ensures
        last_for(found, extension) is None,
    decreases found.len(),
{
    if found.len() > 0 {
        assert(!lists(syntax_extensions(found[found.len() - 1]), extension));
        let before = found.drop_last();
        assert(forall|j: int| 0 <= j < before.len() ==> before[j] == found[j]);
        lemma_none_listed(before, extension);
    }
}

proof fn lemma_last_so_named(found: Seq<SyntaxReference>, name: Seq<char>, k: int)
    requires
        0 <= k < found.len(),
        syntax_name(found[k]) == name,
        forall|j: int| k < j < found.len() ==> syntax_name(#[trigger] found[j]) != name,
    ensures
        last_named(found, name) == Some(found[k]),
    decreases found.len(),
{
    if k < found.len() - 1 {
        assert(syntax_name(found[found.len() - 1]) != name);
        let before = found.drop_last();
        assert(forall|j: int| 0 <= j < before.len() ==> before[j] == found[j]);
        lemma_last_so_named(before, name, k);
    }
}

// Parsing

/// A change of the scopes that hold.
pub enum ScopeOp {
    /// One more scope holds.
    Push(Scope),
    /// The innermost ones hold no longer.
    Pop(usize),
    /// The innermost ones are set aside.
    ClearTop(usize),
    /// All are set aside.
    ClearAll,
    /// Those that were set aside last hold again.
    Restore,
    /// Nothing changes.
    Noop,
}

/// The syntax that a parser was started with.
pub uninterp spec fn origin(state: ParseState) -> SyntaxReference;

/// The parser of a syntax at the start of a file.
pub uninterp spec fn start_state(syntax: SyntaxReference) -> ParseState;

/// What parsing a line gives: the changes at byte offsets of the line, unless
/// it fails, and the parser after the line.
pub uninterp spec fn parsed(state: ParseState, line: Seq<char>, set: SyntaxSet) -> (
    Option<Seq<(usize, ScopeOp)>>,
    ParseState,
);

/// `ParseState::new`: a parser at the start of a file. A syntax without a start
/// context makes it panic; a linked set has none.
#[verifier::external_body]
pub(crate) fn start(set: &SyntaxSet, syntax: &SyntaxReference) -> (state: ParseState)
    requires
        linked(*set),
        syntaxes(*set).contains(*syntax),
    ensures
        state == start_state(*syntax),
        origin(state) == *syntax,
{
    ParseState::new(syntax)
}

/// `ParseState::parse_line`: the changes of scope in a line, at byte offsets of
/// it, and the parser moved past the line. Nothing is claimed of where the
/// offsets lie. With a set that is not the syntax's own, or that is not linked, it
/// could panic; with patterns that do harm it could panic or not return.
#[verifier::external_body]
pub(crate) fn parse_line(state: &mut ParseState, line: &str, set: &SyntaxSet) -> (ops: Result<
    Vec<(usize, ScopeOp)>,
    ParsingError,
>)
    requires
        linked(*set),
        tame(*set),
        syntaxes(*set).contains(origin(*old(state))),
    ensures
        origin(*final(state)) == origin(*old(state)),
        parsed(*old(state), line@, *set) == (
            match ops {
                Ok(ops) => Some(ops@),
                Err(_) => None,
            },
            *final(state),
        ),
{
    let ops = state.parse_line(line, set)?;
    Ok(ops.into_iter().map(|(at, op)| (at, match op {
        ScopeStackOp::Push(scope) => ScopeOp::Push(scope),
        ScopeStackOp::Pop(count) => ScopeOp::Pop(count),
        ScopeStackOp::Clear(ClearAmount::TopN(count)) => ScopeOp::ClearTop(count),
        ScopeStackOp::Clear(ClearAmount::All) => ScopeOp::ClearAll,
        ScopeStackOp::Restore => ScopeOp::Restore,
        ScopeStackOp::Noop => ScopeOp::Noop,
    })).collect())
}

// The scopes that hold

/// One scope more, or one less.
pub enum ScopeStep {
    Push(Scope),
    Pop,
}

/// The scopes on a stack, the innermost last.
pub uninterp spec fn stack_scopes(stack: ScopeStack) -> Seq<Scope>;

/// The scopes that a stack has set aside, each lot as it lay.
pub uninterp spec fn stack_aside(stack: ScopeStack) -> Seq<Seq<Scope>>;

/// The scopes that hold, and those that were set aside.
pub struct Scopes {
    pub holding: Seq<Scope>,
    pub aside: Seq<Seq<Scope>>,
}

/// What a stack stands for.
pub open spec fn stack_view(stack: ScopeStack) -> Scopes {
    Scopes { holding: stack_scopes(stack), aside: stack_aside(stack) }
}

/// As many steps down.
pub open spec fn pops(count: nat) -> Seq<ScopeStep> {
    Seq::new(count, |i: int| ScopeStep::Pop)
}

/// A step up for each scope.
pub open spec fn pushes(scopes: Seq<Scope>) -> Seq<ScopeStep> {
    scopes.map_values(|scope: Scope| ScopeStep::Push(scope))
}

/// The smaller of two numbers.
pub open spec fn smaller(a: nat, b: nat) -> nat {
    if a < b {
        a
    } else {
        b
    }
}

/// The scopes with the innermost ones set aside, and as many steps down.
pub open spec fn cleared(scopes: Scopes, count: nat) -> (Scopes, Seq<ScopeStep>) {
    let left = scopes.holding.len() - count;
    (
        Scopes {
            holding: scopes.holding.take(left),
            aside: scopes.aside.push(scopes.holding.skip(left)),
        },
        pops(count),
    )
}

/// The scopes after a change, and the steps that it is made of. Popping goes on
/// when no scope is left. Nothing can be restored where nothing was set aside.
pub open spec fn changed(scopes: Scopes, op: ScopeOp) -> Option<(Scopes, Seq<ScopeStep>)> {
    match op {
        ScopeOp::Push(scope) => Some(
            (
                Scopes { holding: scopes.holding.push(scope), ..scopes },
                seq![ScopeStep::Push(scope)],
            ),
        ),
        ScopeOp::Pop(count) => Some(
            (
                Scopes {
                    holding: scopes.holding.take(
                        scopes.holding.len() - smaller(count as nat, scopes.holding.len()),
                    ),
                    ..scopes
                },
                pops(count as nat),
            ),
        ),
        ScopeOp::ClearTop(count) => Some(
            cleared(scopes, smaller(count as nat, scopes.holding.len())),
        ),
        ScopeOp::ClearAll => Some(cleared(scopes, scopes.holding.len())),
        ScopeOp::Restore => if scopes.aside.len() == 0 {
            None
        } else {
            Some(
                (
                    Scopes {
                        holding: scopes.holding + scopes.aside.last(),
                        aside: scopes.aside.drop_last(),
                    },
                    pushes(scopes.aside.last()),
                ),
            )
        },
        ScopeOp::Noop => Some((scopes, seq![])),
    }
}

/// `ScopeStack::new`: a stack without scopes.
#[verifier::external_body]
pub(crate) fn new_stack() -> (stack: ScopeStack)
    ensures
        stack_scopes(stack) == Seq::<Scope>::empty(),
        stack_aside(stack) == Seq::<Seq<Scope>>::empty(),
{
    ScopeStack::new()
}

/// Notes a step.
fn note(steps: &mut Vec<ScopeStep>, step: ScopeStep)
    ensures
        final(steps)@ == old(steps)@.push(step),
{
    steps.push(step);
}

/// `ScopeStack::apply_with_hook`: carries out a change and tells its steps one
/// by one, in order. A change that cannot be carried out leaves the stack as it
/// was.
#[verifier::external_body]
pub(crate) fn apply(stack: &mut ScopeStack, op: &ScopeOp) -> (steps: Result<
    Vec<ScopeStep>,
    ScopeError,
>)
    ensures
        match steps {
            Ok(steps) => changed(stack_view(*old(stack)), *op) == Some(
                (
                    Scopes {
                        holding: stack_scopes(*final(stack)),
                        aside: stack_aside(*final(stack)),
                    },
                    steps@,
                ),
            ),
            Err(_) => {
                &&& changed(stack_view(*old(stack)), *op) is None
                &&& stack_scopes(*final(stack)) == stack_scopes(*old(stack))
                &&& stack_aside(*final(stack)) == stack_aside(*old(stack))
            },
        },
{
    let op = match op {
        ScopeOp::Push(scope) => ScopeStackOp::Push(*scope),
        ScopeOp::Pop(count) => ScopeStackOp::Pop(*count),
        ScopeOp::ClearTop(count) => ScopeStackOp::Clear(ClearAmount::TopN(*count)),
        ScopeOp::ClearAll => ScopeStackOp::Clear(ClearAmount::All),
        ScopeOp::Restore => ScopeStackOp::Restore,
        ScopeOp::Noop => ScopeStackOp::Noop,
    };
    let mut steps = Vec::new();
    stack.apply_with_hook(&op, |step, _| note(&mut steps, match step {
        BasicScopeStackOp::Push(scope) => ScopeStep::Push(scope),
        BasicScopeStackOp::Pop => ScopeStep::Pop,
    })).map(|_| steps)
}

// The atoms of a scope

/// The atoms of a scope, outermost first. A scope is a handle into a repository
/// that belongs to the process and only grows, and it never leaves the process
/// but as text, so what it stands for does not change.
pub uninterp spec fn atoms(scope: Scope) -> Seq<Seq<char>>;

/// `Scope::len`: how many atoms there are, eight at most.
#[verifier::external_body]
fn atom_count(scope: Scope) -> (count: u32)
    ensures
        count == atoms(scope).len(),
        count <= 8,
{
    scope.len()
}

/// `Scope::atom_at` and `ScopeRepository::atom_str`: an atom by its place. The
/// number that stands between the two calls means nothing outside them.
#[verifier::external_body]
#[allow(deprecated)]
fn atom_text(scope: Scope, place: u32) -> (atom: String)
    requires
        place < atoms(scope).len(),
    ensures
        atom@ == atoms(scope)[place as int],
{
    let repo = syntect::parsing::SCOPE_REPO.lock().unwrap();
    repo.atom_str(scope.atom_at(place as usize)).to_owned()
}

/// The classes of a scope: its atoms, with spaces between them.
pub open spec fn classes(scope: Scope) -> Seq<char> {
    text::joined(atoms(scope), seq![' '])
}

/// Appends the classes of a scope.
pub fn scope_to_classes(s: &mut String, scope: Scope)
    ensures
        final(s)@ == old(s)@ + classes(scope),
{
    let ghost before = s@;
    let count: u32 = atom_count(scope);
    for i in 0..count
        invariant
            count == atoms(scope).len(),
            s@ == before + text::joined(atoms(scope).take(i as int), seq![' ']),
    {
        assert(atoms(scope).take(i + 1).drop_last() == atoms(scope).take(i as int));
        let atom = atom_text(scope, i);
        if i != 0 {
            s.push(' ');
        }
        s.append(atom.as_str());
    }
    assert(atoms(scope).take(count as int) == atoms(scope));
}

/// The classes of a scope, taken apart at the spaces, are its atoms: none is left
/// out, and they stand in order.
pub proof fn law_classes_are_the_atoms(scope: Scope)
    requires
        atoms(scope).len() > 0,
        forall|k: int| 0 <= k < atoms(scope).len() ==> !(#[trigger] atoms(scope)[k]).contains(' '),
    ensures
        text::pieces(classes(scope), ' ') == atoms(scope),
{
    text::law_joined_parts_are_the_pieces(atoms(scope), ' ');
}

}
