//! Commits and tags, as the pages show them.

use time::OffsetDateTime;
use vstd::prelude::*;
use vstd::utf8::{encode_utf8, valid_utf8};

use crate::refs::ObjectId;
use crate::{filters, moments, refs, text};

verus! {

/// A point in time that cannot be told.
#[derive(Clone, Copy, Debug, PartialEq, Eq, Structural)]
pub struct TimeOutOfRange;

// What a repository holds

/// Who did something and when, as the repository holds it.
pub struct Signature {
    pub name: Vec<u8>,
    pub email: Vec<u8>,
    /// The seconds since the start of 1970.
    pub seconds: i64,
}

/// A commit as the repository holds it.
pub struct RawCommit {
    pub author: Signature,
    pub committer: Signature,
    pub id: ObjectId,
    pub tree: ObjectId,
    pub parents: Vec<ObjectId>,
    pub summary: Option<Vec<u8>>,
    pub body: Option<Vec<u8>>,
}

/// What kind of object a tag is for.
#[derive(Clone, Copy, Debug, PartialEq, Eq, Structural)]
pub enum TargetKind {
    Commit,
    Tree,
    Other,
}

/// A tag as the repository holds it.
pub struct RawTag {
    pub tagger: Option<Signature>,
    pub message: Option<Vec<u8>>,
    pub target: ObjectId,
    pub target_kind: TargetKind,
}

// What is shown of it

/// Who did something and when.
#[derive(Debug)]
pub struct CommitUser {
    name: String,
    email: String,
    time: OffsetDateTime,
}

/// A commit.
#[derive(Debug)]
pub struct Commit {
    author: CommitUser,
    committer: CommitUser,
    oid: String,
    tree: String,
    parents: Vec<String>,
    summary: String,
    body: String,
}

/// What a tag is for.
#[derive(Debug)]
pub enum TaggedObject {
    Commit(String),
    Tree(String),
}

/// A tag.
#[derive(Debug)]
pub struct DetailedTag {
    pub name: String,
    pub tagger: Option<CommitUser>,
    pub message: String,
    pub tagged_object: Option<TaggedObject>,
}

// Their models

/// Who did something and when.
#[verifier::ext_equal]
pub struct Person {
    pub name: Seq<char>,
    pub email: Seq<char>,
    pub time: OffsetDateTime,
}

/// A commit.
#[verifier::ext_equal]
pub struct CommitPage {
    pub author: Person,
    pub committer: Person,
    pub oid: Seq<char>,
    pub tree: Seq<char>,
    pub parents: Seq<Seq<char>>,
    pub summary: Seq<char>,
    pub body: Seq<char>,
}

impl View for CommitUser {
    type V = Person;

    closed spec fn view(&self) -> Person {
        Person { name: self.name@, email: self.email@, time: self.time }
    }
}

impl View for Commit {
    type V = CommitPage;

    closed spec fn view(&self) -> CommitPage {
        CommitPage {
            author: self.author@,
            committer: self.committer@,
            oid: self.oid@,
            tree: self.tree@,
            parents: text::views(self.parents@),
            summary: self.summary@,
            body: self.body@,
        }
    }
}

/// Whether a second can be told.
pub open spec fn in_range(seconds: i64) -> bool {
    moments::FIRST_SECOND <= seconds <= moments::LAST_SECOND
}

/// Whether a person is the one that a signature is of, at the time of the
/// signature, told in UTC.
pub open spec fn signed_by(person: Person, signature: Signature) -> bool {
    &&& person.name == text::lossy(signature.name@)
    &&& person.email == text::lossy(signature.email@)
    &&& moments::instant(person.time) == signature.seconds * moments::NANOS
    &&& moments::utc_offset(person.time) == 0
}

/// The text of bytes that may be missing.
pub open spec fn text_or_empty(bytes: Option<Vec<u8>>) -> Seq<char> {
    match bytes {
        Some(bytes) => text::lossy(bytes@),
        None => seq![],
    }
}

/// The digits of ids.
pub open spec fn id_texts(ids: Seq<ObjectId>) -> Seq<Seq<char>> {
    ids.map_values(|id: ObjectId| filters::hex_text(id@))
}

/// Whether a text says what the repository holds: it encodes to the bytes that
/// are there, as far as they are UTF-8, and is empty where there are none.
pub open spec fn tells(shown: Seq<char>, bytes: Option<Vec<u8>>) -> bool {
    match bytes {
        Some(bytes) => if valid_utf8(bytes@) {
            encode_utf8(shown) == bytes@
        } else {
            shown == text::replaced(bytes@)
        },
        None => shown.len() == 0,
    }
}

/// Whether digits are those of an id: read back, they give its bytes.
pub open spec fn digits_of(digits: Seq<char>, id: ObjectId) -> bool {
    &&& digits.len() == 40
    &&& refs::is_id(digits)
    &&& refs::id_bytes(digits) == id@
}

fn read_text_or_empty(bytes: &Option<Vec<u8>>) -> (r: String)
    ensures
        r@ == text_or_empty(*bytes),
        tells(r@, *bytes),
{
    proof {
        law_shown_text_is_that_of_the_repository(*bytes);
    }
    match bytes {
        Some(bytes) => text::from_utf8_lossy(bytes.as_slice()),
        None => {
            let nothing = String::new();
            assert(nothing@ == Seq::<char>::empty());
            nothing
        },
    }
}

fn write_ids(ids: &Vec<ObjectId>) -> (r: Vec<String>)
    ensures
        text::views(r@) == id_texts(ids@),
{
    let mut texts: Vec<String> = Vec::new();
    for k in 0..ids.len()
        invariant
            text::views(texts@) == id_texts(ids@.take(k as int)),
    {
        let digits = ids[k].to_string();
        let ghost before = texts@;
        let ghost last = digits@;
        texts.push(digits);
        assert(text::views(texts@) == text::views(before).push(last));
        assert(id_texts(ids@.take(k + 1)) == id_texts(ids@.take(k as int)).push(last));
    }
    assert(ids@.take(ids@.len() as int) == ids@);
    texts
}

impl CommitUser {
    /// The person of a signature, if the time of it can be told.
    pub fn try_from(v: &Signature) -> (r: Result<CommitUser, TimeOutOfRange>)
        ensures
            match r {
                Ok(user) => in_range(v.seconds) && signed_by(user@, *v),
                Err(_) => !in_range(v.seconds),
            },
            r is Ok <==> -377_705_116_800 <= v.seconds <= 253_402_300_799,
            r matches Ok(user) ==> {
                &&& tells(user@.name, Some(v.name))
                &&& tells(user@.email, Some(v.email))
                &&& moments::instant(user@.time) == v.seconds * 1_000_000_000
            },
    {
        proof {
            law_shown_text_is_that_of_the_repository(Some(v.name));
            law_shown_text_is_that_of_the_repository(Some(v.email));
        }
        let name = text::from_utf8_lossy(v.name.as_slice());
        let email = text::from_utf8_lossy(v.email.as_slice());
        match moments::from_unix_timestamp(v.seconds) {
            Ok(time) => Ok(CommitUser { name, email, time }),
            Err(_) => Err(TimeOutOfRange),
        }
    }

    pub fn name(&self) -> (r: &str)
        ensures
            r@ == self@.name,
    {
        self.name.as_str()
    }

    pub fn email(&self) -> (r: &str)
        ensures
            r@ == self@.email,
    {
        self.email.as_str()
    }

    pub fn time(&self) -> (r: OffsetDateTime)
        ensures
            r == self@.time,
    {
        self.time
    }
}

impl Commit {
    /// What is shown of a commit, if its times can be told.
    pub fn try_from(commit: &RawCommit) -> (r: Result<Commit, TimeOutOfRange>)
        ensures
            match r {
                Ok(made) => {
                    &&& in_range(commit.author.seconds)
                    &&& in_range(commit.committer.seconds)
                    &&& signed_by(made@.author, commit.author)
                    &&& signed_by(made@.committer, commit.committer)
                    &&& made@.oid == filters::hex_text(commit.id@)
                    &&& made@.tree == filters::hex_text(commit.tree@)
                    &&& made@.parents == id_texts(commit.parents@)
                    &&& made@.summary == text_or_empty(commit.summary)
                    &&& made@.body == text_or_empty(commit.body)
                },
                Err(_) => !in_range(commit.author.seconds) || !in_range(commit.committer.seconds),
            },
            r matches Ok(made) ==> {
                &&& tells(made@.summary, commit.summary)
                &&& tells(made@.body, commit.body)
                &&& digits_of(made@.oid, commit.id)
                &&& digits_of(made@.tree, commit.tree)
                &&& made@.parents.len() == commit.parents@.len()
                &&& forall|k: int|
                    0 <= k < commit.parents@.len() ==> digits_of(
                        #[trigger] made@.parents[k],
                        commit.parents@[k],
                    )
            },
    {
        proof {
            law_shown_digits_lead_back(commit.id);
            law_shown_digits_lead_back(commit.tree);
            assert forall|k: int| 0 <= k < commit.parents@.len() implies digits_of(
                #[trigger] id_texts(commit.parents@)[k],
                commit.parents@[k],
            ) by {
                law_shown_digits_lead_back(commit.parents@[k]);
            }
        }
        let author = match CommitUser::try_from(&commit.author) {
            Ok(user) => user,
            Err(error) => return Err(error),
        };
        let committer = match CommitUser::try_from(&commit.committer) {
            Ok(user) => user,
            Err(error) => return Err(error),
        };
        Ok(
            Commit {
                author,
                committer,
                oid: commit.id.to_string(),
                tree: commit.tree.to_string(),
                parents: write_ids(&commit.parents),
                summary: read_text_or_empty(&commit.summary),
                body: read_text_or_empty(&commit.body),
            },
        )
    }

    pub fn author(&self) -> (r: &CommitUser)
        ensures
            r@ == self@.author,
    {
        &self.author
    }

    pub fn committer(&self) -> (r: &CommitUser)
        ensures
            r@ == self@.committer,
    {
        &self.committer
    }

    pub fn oid(&self) -> (r: &str)
        ensures
            r@ == self@.oid,
    {
        self.oid.as_str()
    }

    pub fn tree(&self) -> (r: &str)
        ensures
            r@ == self@.tree,
    {
        self.tree.as_str()
    }

    /// The ids of the parents, the first parent first.
    pub fn parents(&self) -> (r: Vec<&str>)
        ensures
            r@.map_values(|id: &str| id@) == self@.parents,
    {
        let mut ids: Vec<&str> = Vec::new();
        for k in 0..self.parents.len()
            invariant
                ids@.map_values(|id: &str| id@) == self@.parents.take(k as int),
                self@.parents == text::views(self.parents@),
        {
            let ghost before = ids@.map_values(|id: &str| id@);
            let id = self.parents[k].as_str();
            ids.push(id);
            assert(ids@.map_values(|id: &str| id@) == before.push(id@));
            assert(self@.parents.take(k + 1) == self@.parents.take(k as int).push(id@));
        }
        assert(self@.parents.take(self@.parents.len() as int) == self@.parents);
        ids
    }

    pub fn summary(&self) -> (r: &str)
        ensures
            r@ == self@.summary,
    {
        self.summary.as_str()
    }

    pub fn body(&self) -> (r: &str)
        ensures
            r@ == self@.body,
    {
        self.body.as_str()
    }
}

/// What is said of the object of a tag: its kind and its digits, unless it is of
/// another kind.
pub open spec fn tags(tagged: Option<TaggedObject>, kind: TargetKind, target: ObjectId) -> bool {
    match kind {
        TargetKind::Commit => tagged matches Some(TaggedObject::Commit(id)) && id@
            == filters::hex_text(target@),
        TargetKind::Tree => tagged matches Some(TaggedObject::Tree(id)) && id@
            == filters::hex_text(target@),
        TargetKind::Other => tagged is None,
    }
}

impl DetailedTag {
    /// What is shown of the tag with a name, if its time can be told.
    pub fn try_from(name: &str, tag: &RawTag) -> (r: Result<DetailedTag, TimeOutOfRange>)
        ensures
            match r {
                Ok(made) => {
                    &&& made.name@ == name@
                    &&& made.message@ == text_or_empty(tag.message)
                    &&& tags(made.tagged_object, tag.target_kind, tag.target)
                    &&& match tag.tagger {
                        Some(signature) => in_range(signature.seconds) && (
                        made.tagger matches Some(user) && signed_by(user@, signature)),
                        None => made.tagger is None,
                    }
                },
                Err(_) => tag.tagger matches Some(signature) && !in_range(signature.seconds),
            },
            r matches Ok(made) ==> {
                &&& tells(made.message@, tag.message)
                &&& match made.tagged_object {
                    Some(TaggedObject::Commit(id)) => tag.target_kind is Commit && digits_of(
                        id@,
                        tag.target,
                    ),
                    Some(TaggedObject::Tree(id)) => tag.target_kind is Tree && digits_of(
                        id@,
                        tag.target,
                    ),
                    None => tag.target_kind is Other,
                }
            },
    {
        proof {
            law_shown_digits_lead_back(tag.target);
        }
        let tagged_object = match tag.target_kind {
            TargetKind::Commit => Some(TaggedObject::Commit(tag.target.to_string())),
            TargetKind::Tree => Some(TaggedObject::Tree(tag.target.to_string())),
            TargetKind::Other => None,
        };
        let tagger = match &tag.tagger {
            Some(signature) => match CommitUser::try_from(signature) {
                Ok(user) => Some(user),
                Err(error) => return Err(error),
            },
            None => None,
        };
        Ok(
            DetailedTag {
                name: name.to_owned(),
                tagger,
                message: read_text_or_empty(&tag.message),
                tagged_object,
            },
        )
    }
}

/// A summary, a body or a message is shown whole: where the repository holds one
/// and it is UTF-8, the text that is shown encodes to exactly its bytes. Where it
/// holds none, none is shown.
pub proof fn law_shown_text_is_that_of_the_repository(bytes: Option<Vec<u8>>)
    ensures
        bytes matches Some(held) ==> {
            &&& valid_utf8(held@) ==> encode_utf8(text_or_empty(bytes)) == held@
            &&& !valid_utf8(held@) ==> text_or_empty(bytes) == text::replaced(held@)
        },
        bytes is None ==> text_or_empty(bytes).len() == 0,
{
    if let Some(held) = bytes {
        text::law_text_keeps_the_bytes(held@);
    }
}

/// A person is shown under the name and the address of the signature, whole where
/// they are UTF-8, at the second of the signature.
pub proof fn law_shown_person_is_the_signer(person: Person, signature: Signature)
    requires
        signed_by(person, signature),
    ensures
        valid_utf8(signature.name@) ==> encode_utf8(person.name) == signature.name@,
        valid_utf8(signature.email@) ==> encode_utf8(person.email) == signature.email@,
        moments::instant(person.time) == signature.seconds * 1_000_000_000,
        moments::utc_offset(person.time) == 0,
{
    text::law_text_keeps_the_bytes(signature.name@);
    text::law_text_keeps_the_bytes(signature.email@);
}

/// The digits of an id, read back, give its bytes.
pub proof fn law_shown_digits_lead_back(id: ObjectId)
    ensures
        digits_of(filters::hex_text(id@), id),
{
    refs::law_digits_give_the_id_back(id@);
}

/// The ids that a commit shows stand for the objects that the repository holds:
/// read back, they give the same bytes.
pub proof fn law_shown_ids_lead_back(ids: Seq<ObjectId>, k: int)
    requires
        0 <= k < ids.len(),
    ensures
        refs::is_id(id_texts(ids)[k]),
        refs::id_bytes(id_texts(ids)[k]) == ids[k]@,
{
    refs::law_digits_give_the_id_back(ids[k]@);
}

}
