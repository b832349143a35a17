//! What a request names: object ids, branches, tags and the head.

use vstd::prelude::*;

use crate::filters::{hex_digit, hex_text, lemma_hex_digits};
use crate::text;

verus! {

/// An error of the git library.
#[verifier::external_type_specification]
#[verifier::external_body]
pub struct ExGitError(git2::Error);

/// The id of an object.
#[derive(Clone, Copy, Debug)]
pub struct ObjectId {
    pub bytes: [u8; 20],
}

impl View for ObjectId {
    type V = Seq<u8>;

    open spec fn view(&self) -> Seq<u8> {
        self.bytes@
    }
}

/// A text that is no object id.
#[derive(Clone, Copy, Debug, PartialEq, Eq, Structural)]
pub struct BadId;

/// The number that a hexadecimal digit stands for.
pub open spec fn digit_value(c: char) -> Option<int> {
    if '0' <= c <= '9' {
        Some(c as int - '0' as int)
    } else if 'a' <= c <= 'f' {
        Some(c as int - 'a' as int + 10)
    } else if 'A' <= c <= 'F' {
        Some(c as int - 'A' as int + 10)
    } else {
        None
    }
}

/// Whether a text is an object id: one to forty hexadecimal digits.
pub open spec fn is_id(s: Seq<char>) -> bool {
    &&& 1 <= s.len() <= 40
    &&& forall|i: int| 0 <= i < s.len() ==> digit_value(#[trigger] s[i]) is Some
}

/// The number at a place of an id. Digits that are missing count as zero.
pub open spec fn digit_at(s: Seq<char>, i: int) -> int {
    if i < s.len() {
        digit_value(s[i])->0
    } else {
        0
    }
}

/// The bytes of an id.
pub open spec fn id_bytes(s: Seq<char>) -> Seq<u8> {
    Seq::new(20, |i: int| (16 * digit_at(s, 2 * i) + digit_at(s, 2 * i + 1)) as u8)
}

/// `git2::Oid::from_str`: the id that the digits stand for, with zeros for those
/// that are missing.
#[verifier::external_body]
fn oid_from_str(s: &str) -> (r: Result<[u8; 20], git2::Error>)
    ensures
        match r {
            Ok(bytes) => is_id(s@) && bytes@ == id_bytes(s@),
            Err(_) => !is_id(s@),
        },
{
    let oid = git2::Oid::from_str(s)?;
    Ok(oid.as_bytes().try_into().unwrap())
}

/// `git2::Oid::fmt`: the forty lower-case digits of an id.
#[verifier::external_body]
fn oid_to_string(bytes: &[u8; 20]) -> (r: String)
    ensures
        r@ == hex_text(bytes@),
{
    git2::Oid::from_bytes(bytes).unwrap().to_string()
}

impl ObjectId {
    /// The id that a text is.
    pub fn parse(s: &str) -> (r: Result<ObjectId, BadId>)
        ensures
            match r {
                Ok(id) => is_id(s@) && id@ == id_bytes(s@),
                Err(_) => !is_id(s@),
            },
    {
        match oid_from_str(s) {
            Ok(bytes) => Ok(ObjectId { bytes }),
            Err(_) => Err(BadId),
        }
    }

    /// The digits of the id.
    pub fn to_string(&self) -> (r: String)
        ensures
            r@ == hex_text(self@),
    {
        oid_to_string(&self.bytes)
    }

    /// The id whose digits are all zero.
    pub fn zero() -> (id: ObjectId)
        ensures
            id@ == Seq::new(20, |i: int| 0u8),
    {
        let id = ObjectId { bytes: [0u8; 20] };
        assert(id@ == Seq::new(20, |i: int| 0u8));
        id
    }

    /// Whether two ids are the same.
    pub fn same(&self, other: &ObjectId) -> (r: bool)
        ensures
            r == (self@ == other@),
    {
        text::same_bytes(&self.bytes, &other.bytes)
    }
}

/// The digits of an id are an id, and stand for the same bytes.
pub proof fn law_digits_give_the_id_back(bytes: Seq<u8>)
    requires
        bytes.len() == 20,
    ensures
        is_id(hex_text(bytes)),
        id_bytes(hex_text(bytes)) == bytes,
{
    let s = hex_text(bytes);
    assert forall|i: int| 0 <= i < s.len() implies digit_value(#[trigger] s[i]) is Some by {
        lemma_digit_value(
            if i % 2 == 0 {
                bytes[i / 2] as int / 16
            } else {
                bytes[i / 2] as int % 16
            },
        );
    }
    assert forall|i: int| 0 <= i < 20 implies id_bytes(s)[i] == bytes[i] by {
        lemma_hex_digits(bytes, i);
        lemma_digit_value(bytes[i] as int / 16);
        lemma_digit_value(bytes[i] as int % 16);
    }
    assert(id_bytes(s) == bytes);
}

proof fn lemma_digit_value(n: int)
    requires
        0 <= n < 16,
    ensures
        digit_value(hex_digit(n)) == Some(n),
{
}

// What a request is about

/// Where to look something up.
pub enum Source {
    /// At the object with an id.
    Id(ObjectId),
    /// At what a short name refers to.
    Name(String),
    /// At the head of the repository.
    Head,
}

/// Where to look something up.
pub enum Place {
    Id(Seq<u8>),
    Name(Seq<char>),
    Head,
}

impl View for Source {
    type V = Place;

    open spec fn view(&self) -> Place {
        match self {
            Source::Id(id) => Place::Id(id@),
            Source::Name(name) => Place::Name(name@),
            Source::Head => Place::Head,
        }
    }
}

/// The branch, or the head where none is given.
pub open spec fn branch_place(branch: Option<Seq<char>>) -> Place {
    match branch {
        Some(name) => Place::Name(name),
        None => Place::Head,
    }
}

/// The place that a text refers to.
pub open spec fn named_place(name: Seq<char>) -> Place {
    if is_id(name) {
        Place::Id(id_bytes(name))
    } else {
        Place::Name(name)
    }
}

/// The text in an optional string.
pub open spec fn text_of(s: Option<&str>) -> Option<Seq<char>> {
    match s {
        Some(s) => Some(s@),
        None => None,
    }
}

/// The digits of an id name the object with the id, whatever the repository
/// holds: no branch of that name is looked for.
pub proof fn law_digits_name_the_object(bytes: Seq<u8>)
    requires
        bytes.len() == 20,
    ensures
        named_place(hex_text(bytes)) == Place::Id(bytes),
{
    law_digits_give_the_id_back(bytes);
}

/// Where to look where a branch may be given.
pub fn branch_or_head(branch: Option<&str>) -> (r: Source)
    ensures
        r@ == branch_place(text_of(branch)),
        match branch {
            Some(name) => r matches Source::Name(found) && found@ == name@,
            None => r is Head,
        },
{
    match branch {
        Some(name) => Source::Name(name.to_owned()),
        None => Source::Head,
    }
}

/// Where to look where an id and a branch may be given. The id comes first, and
/// must be one.
pub fn id_or_branch(id: Option<&str>, branch: Option<&str>) -> (r: Result<Source, BadId>)
    ensures
        match id {
            Some(digits) => match r {
                Ok(source) => is_id(digits@) && source@ == Place::Id(id_bytes(digits@)),
                Err(_) => !is_id(digits@),
            },
            None => r matches Ok(source) && source@ == branch_place(text_of(branch)),
        },
        id is None ==> match branch {
            Some(name) => r matches Ok(Source::Name(found)) && found@ == name@,
            None => r matches Ok(Source::Head),
        },
{
    match id {
        Some(digits) => match ObjectId::parse(digits) {
            Ok(id) => Ok(Source::Id(id)),
            Err(bad) => Err(bad),
        },
        None => Ok(branch_or_head(branch)),
    }
}

/// Where to look for what a text refers to: an id if it is one, and else a short
/// name.
pub fn id_or_name(ref_: &str) -> (r: Source)
    ensures
        r@ == named_place(ref_@),
        is_id(ref_@) ==> (r matches Source::Id(id) && id@ == id_bytes(ref_@)),
        !is_id(ref_@) ==> (r matches Source::Name(name) && name@ == ref_@),
{
    match ObjectId::parse(ref_) {
        Ok(id) => Source::Id(id),
        Err(_) => Source::Name(ref_.to_owned()),
    }
}

/// A request for a tag that names none.
#[derive(Clone, Copy, Debug, PartialEq, Eq, Structural)]
pub struct NoTagGiven;

/// The full name of the reference of a tag.
pub fn tag_reference(tag: Option<&str>) -> (r: Result<String, NoTagGiven>)
    ensures
        match tag {
            Some(name) => r matches Ok(reference) && reference@ == "refs/tags/"@ + name@,
            None => r is Err,
        },
{
    match tag {
        Some(name) => {
            let mut reference = String::new();
            reference.append("refs/tags/");
            reference.append(name);
            assert(reference@ == "refs/tags/"@ + name@);
            Ok(reference)
        },
        None => Err(NoTagGiven),
    }
}

}
