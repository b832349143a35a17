//! A directory of a repository as a compressed archive, made piece by piece.

use bytes::{BufMut, BytesMut};
use vstd::prelude::*;
use vstd::utf8::*;

use crate::{paths, text};

verus! {

/// An error of the input and output library.
#[verifier::external_type_specification]
#[verifier::external_body]
pub struct ExIoError(std::io::Error);

// The header of an entry

/// The header of an entry of an archive.
#[verifier::external_type_specification]
#[verifier::external_body]
pub struct ExHeader(tar::Header);

/// The bytes of a header.
pub uninterp spec fn header_bytes(header: tar::Header) -> Seq<u8>;

/// So many zero bytes.
pub open spec fn zeros(n: nat) -> Seq<u8> {
    Seq::new(n, |i: int| 0u8)
}

/// Bytes with a field in them replaced.
pub open spec fn with_field(bytes: Seq<u8>, at: int, field: Seq<u8>) -> Seq<u8> {
    bytes.take(at) + field + bytes.skip(at + field.len())
}

/// The last octal digits of a number, as ASCII.
pub open spec fn octal_digits(n: nat, count: nat) -> Seq<u8>
    decreases count,
{
    if count == 0 {
        seq![]
    } else {
        octal_digits(n / 8, (count - 1) as nat).push((48 + n % 8) as u8)
    }
}

/// The number that octal digits stand for.
pub open spec fn octal_value(digits: Seq<u8>) -> int
    decreases digits.len(),
{
    if digits.len() == 0 {
        0
    } else {
        8 * octal_value(digits.drop_last()) + (digits.last() - 48)
    }
}

/// The last bytes of a number, the highest first.
pub open spec fn big_endian(n: nat, count: nat) -> Seq<u8>
    decreases count,
{
    if count == 0 {
        seq![]
    } else {
        big_endian(n / 256, (count - 1) as nat).push((n % 256) as u8)
    }
}

/// A field with octal digits and a zero byte at its end.
pub open spec fn octal_field(n: nat, width: nat) -> Seq<u8> {
    octal_digits(n, (width - 1) as nat).push(0)
}

/// The field with the size of an entry: octal digits, or the bytes of a size
/// that has too many.
pub open spec fn size_field(size: u64) -> Seq<u8> {
    if size < 0o100_000_000_000 {
        octal_field(size as nat, 12)
    } else {
        seq![0x80u8, 0, 0, 0] + big_endian(size as nat, 8)
    }
}

/// A header with nothing set: the marks of the GNU format, and a time of zero.
pub open spec fn blank_header() -> Seq<u8> {
    zeros(136) + octal_field(0, 12) + zeros(109) + seq![
        0x75u8,
        0x73,
        0x74,
        0x61,
        0x72,
        0x20,
        0x20,
        0,
    ] + zeros(247)
}

/// The sum of bytes.
pub open spec fn byte_sum(bytes: Seq<u8>) -> nat
    decreases bytes.len(),
{
    if bytes.len() == 0 {
        0
    } else {
        byte_sum(bytes.drop_last()) + bytes.last() as nat
    }
}

/// The checksum of a header: the sum of its bytes, with spaces for the field of
/// the checksum.
pub open spec fn checksum(bytes: Seq<u8>) -> nat {
    byte_sum(with_field(bytes, 148, Seq::new(8, |i: int| 0x20u8)))
}

/// The names that a path is made of. Empty ones are left out, and those that lead
/// to where they are.
pub open spec fn path_names(parts: Seq<Seq<char>>) -> Seq<Seq<char>>
    decreases parts.len(),
{
    if parts.len() == 0 {
        seq![]
    } else if parts.last().len() == 0 || parts.last() == seq!['.'] {
        path_names(parts.drop_last())
    } else {
        path_names(parts.drop_last()).push(parts.last())
    }
}

/// The name of an entry for a path: the names that the path is made of, and a
/// slash at the end if the path has one. A path that starts at the root, leads
/// upwards, holds a zero character or is empty has none.
pub open spec fn entry_name(path: Seq<char>) -> Option<Seq<char>> {
    let names = path_names(text::pieces(path, '/'));
    if path.len() == 0 || path[0] == '/' || path.contains('\0') || names.contains(
        seq!['.', '.'],
    ) {
        None
    } else {
        let name = if names.len() == 0 {
            seq!['.']
        } else {
            text::joined(names, seq!['/'])
        };
        Some(
            if path.last() == '/' {
                name.push('/')
            } else {
                name
            },
        )
    }
}

/// The name that an archive stores for a path, if there is one and it is short
/// enough.
pub open spec fn stored_name(path: Seq<char>) -> Option<Seq<char>> {
    match entry_name(path) {
        Some(name) => if text::byte_len(name) <= 100 {
            Some(name)
        } else {
            None
        },
        None => None,
    }
}

/// The field with a name.
pub open spec fn name_field(name: Seq<char>) -> Seq<u8> {
    encode_utf8(name) + zeros((100 - text::byte_len(name)) as nat)
}

/// `tar::Header::new_gnu`: a header with nothing set.
#[verifier::external_body]
fn new_header() -> (header: tar::Header)
    ensures
        header_bytes(header) == blank_header(),
{
    tar::Header::new_gnu()
}

/// `tar::Header::set_path`, on a header of the GNU format with nothing set: puts
/// the name for the path into the first hundred bytes, with the path taken apart
/// as `std::path::Path::components` does it where `/` separates. It fails where
/// there is no such name or it is too long.
#[verifier::external_body]
fn set_path(header: &mut tar::Header, path: &str) -> (r: Result<(), std::io::Error>)
    requires
        header_bytes(*old(header)) == blank_header(),
    ensures
        match r {
            Ok(_) => stored_name(path@) matches Some(name) && header_bytes(*final(header))
                == with_field(header_bytes(*old(header)), 0, name_field(name)),
            Err(_) => stored_name(path@) is None,
        },
{
    header.set_path(path)
}

/// `tar::Header::set_size`: sets the size, in the twelve bytes from 124 on.
#[verifier::external_body]
fn set_size(header: &mut tar::Header, size: u64)
    requires
        header_bytes(*old(header)).len() == 512,
    ensures
        header_bytes(*final(header)) == with_field(
            header_bytes(*old(header)),
            124,
            size_field(size),
        ),
{
    header.set_size(size)
}

/// `tar::Header::set_mode`: sets the last seven octal digits of the mode, in the
/// eight bytes from 100 on.
#[verifier::external_body]
fn set_mode(header: &mut tar::Header, mode: u32)
    requires
        header_bytes(*old(header)).len() == 512,
    ensures
        header_bytes(*final(header)) == with_field(
            header_bytes(*old(header)),
            100,
            octal_field(mode as nat, 8),
        ),
{
    header.set_mode(mode)
}

/// `tar::Header::set_cksum`: sets the checksum, in the eight bytes from 148 on.
#[verifier::external_body]
fn set_cksum(header: &mut tar::Header)
    requires
        header_bytes(*old(header)).len() == 512,
    ensures
        header_bytes(*final(header)) == with_field(
            header_bytes(*old(header)),
            148,
            octal_field(checksum(header_bytes(*old(header))), 8),
        ),
{
    header.set_cksum()
}

/// The header of an entry, but for its checksum.
pub open spec fn unsigned_header(field: Seq<u8>, size: u64, mode: u32) -> Seq<u8> {
    with_field(
        with_field(with_field(blank_header(), 0, field), 124, size_field(size)),
        100,
        octal_field(mode as nat, 8),
    )
}

/// The header of an entry.
pub open spec fn entry_header(field: Seq<u8>, size: u64, mode: u32) -> Seq<u8> {
    let header = unsigned_header(field, size, mode);
    with_field(header, 148, octal_field(checksum(header), 8))
}

/// How many bytes fill a block up.
pub open spec fn padding(size: nat) -> nat {
    ((512 - size % 512) % 512) as nat
}

/// An entry: its header and its content, filled up to whole blocks.
pub open spec fn entry_bytes(field: Seq<u8>, mode: u32, content: Seq<u8>) -> Seq<u8> {
    entry_header(field, content.len() as u64, mode) + content + zeros(padding(content.len()))
}

proof fn lemma_octal_digits_len(n: nat, count: nat)
    ensures
        octal_digits(n, count).len() == count,
    decreases count,
{
    if count > 0 {
        lemma_octal_digits_len(n / 8, (count - 1) as nat);
    }
}

proof fn lemma_big_endian_len(n: nat, count: nat)
    ensures
        big_endian(n, count).len() == count,
    decreases count,
{
    if count > 0 {
        lemma_big_endian_len(n / 256, (count - 1) as nat);
    }
}

/// The fields have the widths that they should have.
proof fn lemma_field_widths(size: u64, mode: u32, sum: nat)
    ensures
        blank_header().len() == 512,
        size_field(size).len() == 12,
        octal_field(mode as nat, 8).len() == 8,
        octal_field(sum, 8).len() == 8,
{
    lemma_octal_digits_len(0, 11);
    lemma_octal_digits_len(size as nat, 11);
    lemma_octal_digits_len(mode as nat, 7);
    lemma_octal_digits_len(sum, 7);
    lemma_big_endian_len(size as nat, 8);
}

/// Makes the header of an entry, if the path can be put into it.
fn make_header(path: &str, size: u64, mode: u32) -> (r: Option<tar::Header>)
    ensures
        match r {
            Some(header) => stored_name(path@) matches Some(name) && header_bytes(header)
                == entry_header(name_field(name), size, mode),
            None => stored_name(path@) is None,
        },
{
    let mut header = new_header();
    if set_path(&mut header, path).is_err() {
        return None;
    }
    let ghost field = name_field(stored_name(path@)->0);
    proof {
        lemma_field_widths(size, mode, 0);
        assert(field.len() == 100);
    }
    set_size(&mut header, size);
    set_mode(&mut header, mode);
    assert(header_bytes(header) == unsigned_header(field, size, mode));
    set_cksum(&mut header);
    Some(header)
}

// The archive

/// How many compressed bytes are sent at once, at least.
pub const BUFFER_CAP: usize = 524_288;

/// How hard to compress, from nothing to nine: as fast as can be.
pub const LEVEL: u32 = 1;

/// An archive that is compressed and kept in memory as it is written.
#[verifier::external_body]
pub struct ArchiveWriter {
    builder: tar::Builder<flate2::write::GzEncoder<bytes::buf::Writer<BytesMut>>>,
}

/// What has been written to an archive.
pub uninterp spec fn written(archive: ArchiveWriter) -> Seq<u8>;

/// The compressed bytes that have been taken out of an archive.
pub uninterp spec fn taken(archive: ArchiveWriter) -> Seq<u8>;

/// The compressed bytes that wait in an archive.
pub uninterp spec fn waiting(archive: ArchiveWriter) -> Seq<u8>;

/// Whether an archive can be written to: whether it takes an entry with the given
/// header and content.
pub uninterp spec fn accepts(
    archive: ArchiveWriter,
    header: Seq<u8>,
    content: Seq<u8>,
) -> bool;

/// The compressed bytes that ending an archive gives out, those that wait in it
/// among them, unless it cannot be ended.
pub uninterp spec fn ended(archive: ArchiveWriter) -> Option<Seq<u8>>;

/// What a gzip stream holds.
pub uninterp spec fn unzipped(stream: Seq<u8>) -> Option<Seq<u8>>;

/// `tar::Builder::new`, on a `flate2::write::GzEncoder` that compresses at a level
/// into a `bytes::BytesMut` with room for so many bytes: an archive with nothing
/// written to it.
#[verifier::external_body]
fn new_writer(capacity: usize, level: u32) -> (archive: ArchiveWriter)
    requires
        capacity <= 0x7fff_ffff,
        level <= 9,
    ensures
        written(archive).len() == 0,
        taken(archive).len() == 0,
        waiting(archive).len() == 0,
{
    let buffer = BytesMut::with_capacity(capacity);
    let flate = flate2::write::GzEncoder::new(buffer.writer(), flate2::Compression::new(level));
    ArchiveWriter { builder: tar::Builder::new(flate) }
}

/// `tar::Builder::append`: writes the header and the content, and fills the last
/// block up with zeros. Compressed bytes are only added behind those that wait.
/// All of it goes into memory, so whether it succeeds is decided by the archive,
/// the header and the content alone. Nothing is said of what is in an archive
/// that could not be written to.
#[verifier::external_body]
fn append(archive: &mut ArchiveWriter, header: &tar::Header, content: &[u8]) -> (r: Result<
    (),
    std::io::Error,
>)
    ensures
        r is Ok <==> accepts(*old(archive), header_bytes(*header), content@),
        r is Ok ==> {
            &&& written(*final(archive)) == written(*old(archive)) + header_bytes(*header)
                + content@ + zeros(padding(content@.len()))
            &&& taken(*final(archive)) == taken(*old(archive))
            &&& waiting(*final(archive)).len() >= waiting(*old(archive)).len()
            &&& waiting(*final(archive)).take(waiting(*old(archive)).len() as int) == waiting(
                *old(archive),
            )
        },
{
    archive.builder.append(header, content)
}

/// `bytes::BytesMut::len`, of the buffer: how many compressed bytes wait.
#[verifier::external_body]
fn waiting_len(archive: &ArchiveWriter) -> (n: usize)
    ensures
        n == waiting(*archive).len(),
{
    archive.builder.get_ref().get_ref().get_ref().len()
}

/// `bytes::BytesMut::split`, of the buffer: takes the compressed bytes that wait
/// out of it.
#[verifier::external_body]
fn take_waiting(archive: &mut ArchiveWriter) -> (r: Vec<u8>)
    ensures
        r@ == waiting(*old(archive)),
        waiting(*final(archive)).len() == 0,
        taken(*final(archive)) == taken(*old(archive)) + r@,
        written(*final(archive)) == written(*old(archive)),
{
    archive.builder.get_mut().get_mut().get_mut().split().into()
}

/// `tar::Builder::into_inner`, then `flate2::write::GzEncoder::finish`: writes
/// the two blocks of zeros at the end and gives out the compressed bytes that
/// are left. Whether that succeeds, and with which bytes, is decided by the
/// archive alone. With all those that were taken out before the bytes are a gzip
/// stream of what was written. Behind those that wait come at least the eight
/// that end such a stream.
#[verifier::external_body]
fn finish_writer(archive: ArchiveWriter) -> (r: Result<Vec<u8>, std::io::Error>)
    ensures
        match r {
            Ok(rest) => ended(archive) == Some(rest@),
            Err(_) => ended(archive) is None,
        },
        r matches Ok(rest) ==> {
            &&& unzipped(taken(archive) + rest@) == Some(written(archive) + zeros(1024))
            &&& rest@.len() >= waiting(archive).len() + 8
            &&& rest@.take(waiting(archive).len() as int) == waiting(archive)
        },
{
    Ok(archive.builder.into_inner()?.finish()?.into_inner().into())
}

/// How far an archive has come.
#[verifier::ext_equal]
pub struct Progress {
    /// What has been written to it.
    pub written: Seq<u8>,
    /// The compressed bytes that have been sent.
    pub sent: Seq<u8>,
    /// The compressed bytes that wait to be sent.
    pub waiting: Seq<u8>,
}

/// An archive that is sent while it is written.
pub struct Archive {
    writer: ArchiveWriter,
}

impl View for Archive {
    type V = Progress;

    closed spec fn view(&self) -> Progress {
        Progress {
            written: written(self.writer),
            sent: taken(self.writer),
            waiting: waiting(self.writer),
        }
    }
}

/// What became of an entry.
#[derive(Clone, Copy, Debug, PartialEq, Eq, Structural)]
pub enum Outcome {
    /// It is no file, and nothing was to be written.
    NoFile,
    /// Its path cannot be put into an archive.
    BadPath,
    /// It could not be written.
    NotWritten,
    /// It was written.
    Written,
}

/// What to do after an entry.
#[derive(Clone, Copy, Debug, PartialEq, Eq, Structural)]
pub enum Decision {
    /// Go on.
    Continue,
    /// Send what waits, and go on.
    Send,
    /// Leave out what is below the entry, and go on.
    Skip,
    /// Give up.
    Abort,
}

/// What to do after an entry, and what to send.
pub enum Step {
    Continue,
    Send(Vec<u8>),
    Skip,
    Abort,
}

/// What to do after an entry, where so many compressed bytes wait.
pub open spec fn decision(outcome: Outcome, waiting: int) -> Decision {
    match outcome {
        Outcome::BadPath => Decision::Skip,
        Outcome::NotWritten => Decision::Abort,
        _ => if waiting >= BUFFER_CAP {
            Decision::Send
        } else {
            Decision::Continue
        },
    }
}

/// What to do after an entry, where so many compressed bytes wait.
pub fn decide(outcome: Outcome, waiting: usize) -> (r: Decision)
    ensures
        r == decision(outcome, waiting as int),
        r is Skip <==> outcome is BadPath,
        r is Abort <==> outcome is NotWritten,
        r is Send <==> (outcome is Written || outcome is NoFile) && waiting >= 524_288,
{
    match outcome {
        Outcome::BadPath => Decision::Skip,
        Outcome::NotWritten => Decision::Abort,
        _ => if waiting >= BUFFER_CAP {
            Decision::Send
        } else {
            Decision::Continue
        },
    }
}

/// Whether writing an entry, or no file, leads from one state to another.
pub open spec fn writes(
    before: Progress,
    after: Progress,
    path: Seq<char>,
    mode: u32,
    content: Option<Seq<u8>>,
    outcome: Outcome,
) -> bool {
    match content {
        None => outcome is NoFile && after == before,
        Some(content) => {
            &&& outcome is BadPath <==> stored_name(path) is None
            &&& match outcome {
                Outcome::NoFile => false,
                Outcome::BadPath => after == before,
                Outcome::NotWritten => true,
                Outcome::Written => {
                    &&& after.sent == before.sent
                    &&& after.written == before.written + entry_bytes(
                        name_field(stored_name(path)->0),
                        mode,
                        content,
                    )
                },
            }
        },
    }
}

/// Whether a step follows from what became of an entry. What waits is sent when
/// there is enough of it.
pub open spec fn follows(written: Progress, after: Progress, outcome: Outcome, step: Step) -> bool {
    match decision(outcome, written.waiting.len() as int) {
        Decision::Continue => step is Continue && after == written,
        Decision::Skip => step is Skip && after == written,
        Decision::Abort => step is Abort,
        Decision::Send => {
            &&& step matches Step::Send(chunk) && chunk@ == written.waiting
            &&& after.written == written.written
            &&& after.sent == written.sent + written.waiting
            &&& after.waiting.len() == 0
        },
    }
}

/// The content of an entry, if it has any.
pub open spec fn content_of(content: Option<&[u8]>) -> Option<Seq<u8>> {
    match content {
        Some(content) => Some(content@),
        None => None,
    }
}

/// Whether adding an entry leads from one state to another with a step: it is
/// written or not, and the step follows from that.
pub open spec fn adds(
    before: Progress,
    after: Progress,
    path: Seq<char>,
    mode: u32,
    content: Option<Seq<u8>>,
    step: Step,
) -> bool {
    exists|outcome: Outcome, written: Progress|
        #[trigger] writes(before, written, path, mode, content, outcome) && follows(
            written,
            after,
            outcome,
            step,
        )
}

impl Archive {
    /// The last bytes to send if nothing more is added, unless the archive cannot
    /// be ended.
    pub closed spec fn ending(&self) -> Option<Seq<u8>> {
        ended(self.writer)
    }

    /// Whether the archive takes an entry with the given header and content.
    pub closed spec fn takes(&self, header: Seq<u8>, content: Seq<u8>) -> bool {
        accepts(self.writer, header, content)
    }

    /// Whether an entry has to be given up: it is a file whose path can be stored,
    /// and the archive does not take it.
    pub open spec fn gives_up_on(
        &self,
        path: Seq<char>,
        mode: u32,
        content: Option<Seq<u8>>,
    ) -> bool {
        match (content, stored_name(path)) {
            (Some(content), Some(name)) => !self.takes(
                entry_header(name_field(name), content.len() as u64, mode),
                content,
            ),
            _ => false,
        }
    }

    /// An archive without entries.
    pub fn new() -> (r: Archive)
        ensures
            r@.written.len() == 0,
            r@.sent.len() == 0,
            r@.waiting.len() == 0,
    {
        Archive { writer: new_writer(BUFFER_CAP + 1024, LEVEL) }
    }

    fn write_entry(&mut self, path: &str, mode: u32, content: Option<&[u8]>) -> (outcome: Outcome)
        ensures
            writes(old(self)@, final(self)@, path@, mode, content_of(content), outcome),
            outcome is NotWritten <==> old(self).gives_up_on(path@, mode, content_of(content)),
    {
        let ghost before = self@;
        let outcome = match content {
            None => Outcome::NoFile,
            Some(content) => {
                let size: u64 = content.len() as u64;
                match make_header(path, size, mode) {
                    None => Outcome::BadPath,
                    Some(header) => {
                        if append(&mut self.writer, &header, content).is_ok() {
                            assert(self@.written == before.written + entry_bytes(
                                name_field(stored_name(path@)->0),
                                mode,
                                content@,
                            ));
                            Outcome::Written
                        } else {
                            Outcome::NotWritten
                        }
                    },
                }
            },
        };
        assert(writes(before, self@, path@, mode, content_of(content), outcome));
        outcome
    }

    /// Adds the entry with a name, of the directory at a path. It has content if
    /// it is a file; other entries are passed over. It is given up where the
    /// archive does not take the entry.
    pub fn add(&mut self, root: &str, name: &[u8], mode: i32, content: Option<&[u8]>) -> (r: Step)
        ensures
            adds(
                old(self)@,
                final(self)@,
                paths::joined(root@, text::lossy(name@), '/'),
                mode as u32,
                content_of(content),
                r,
            ),
            r is Abort <==> old(self).gives_up_on(
                paths::joined(root@, text::lossy(name@), '/'),
                mode as u32,
                content_of(content),
            ),
    {
        let name = text::from_utf8_lossy(name);
        let path = paths::join_text(root, name.as_str());
        #[verifier::truncate]
        let bits: u32 = mode as u32;
        let outcome = self.write_entry(path.as_str(), bits, content);
        let ghost written = self@;
        let step = match decide(outcome, waiting_len(&self.writer)) {
            Decision::Continue => Step::Continue,
            Decision::Skip => Step::Skip,
            Decision::Abort => Step::Abort,
            Decision::Send => Step::Send(take_waiting(&mut self.writer)),
        };
        assert(writes(old(self)@, written, path@, bits, content_of(content), outcome));
        assert(follows(written, self@, outcome, step));
        assert(step is Abort == outcome is NotWritten);
        step
    }

    /// Ends the archive and gives out the last bytes to send, unless it cannot be
    /// ended. They begin with those that wait, and are never none. All that was
    /// sent, and they, are a gzip stream of what was written and the end of it.
    pub fn finish(self) -> (r: Option<Vec<u8>>)
        ensures
            match r {
                Some(rest) => {
                    &&& self.ending() == Some(rest@)
                    &&& rest@.len() >= self@.waiting.len() + 8
                    &&& rest@.take(self@.waiting.len() as int) == self@.waiting
                    &&& unzipped(self@.sent + rest@) == Some(self@.written + zeros(1024))
                },
                None => self.ending() is None,
            },
    {
        match finish_writer(self.writer) {
            Ok(rest) => Some(rest),
            Err(_) => None,
        }
    }
}

// The laws

/// The first number that has more octal digits than so many.
pub open spec fn octal_limit(count: nat) -> nat
    decreases count,
{
    if count == 0 {
        1
    } else {
        8 * octal_limit((count - 1) as nat)
    }
}

/// Octal digits read back as the number that was written, if there are enough
/// of them for it.
pub proof fn law_octal_reads_back(n: nat, count: nat)
    requires
        n < octal_limit(count),
    ensures
        octal_digits(n, count).len() == count,
        octal_value(octal_digits(n, count)) == n,
    decreases count,
{
    if count > 0 {
        law_octal_reads_back(n / 8, (count - 1) as nat);
        let digits = octal_digits(n, count);
        assert(digits.drop_last() == octal_digits(n / 8, (count - 1) as nat));
        assert(digits.last() == 48 + n % 8);
    }
}

/// A header is one block, and holds the name, the mode and the size of the entry
/// where they belong. But for the checksum, the rest is that of a header with
/// nothing set.
pub proof fn law_header_holds_the_fields(field: Seq<u8>, size: u64, mode: u32)
    requires
        field.len() == 100,
    ensures
        entry_header(field, size, mode).len() == 512,
        entry_header(field, size, mode).subrange(0, 100) == field,
        entry_header(field, size, mode).subrange(100, 108) == octal_field(mode as nat, 8),
        entry_header(field, size, mode).subrange(124, 136) == size_field(size),
        forall|i: int|
            108 <= i < 124 || 136 <= i < 148 || 156 <= i < 512 ==> #[trigger] entry_header(
                field,
                size,
                mode,
            )[i] == blank_header()[i],
{
    let header = entry_header(field, size, mode);
    lemma_field_widths(size, mode, checksum(unsigned_header(field, size, mode)));
    assert(header.subrange(0, 100) == field);
    assert(header.subrange(100, 108) == octal_field(mode as nat, 8));
    assert(header.subrange(124, 136) == size_field(size));
}

proof fn lemma_byte_sum_bound(bytes: Seq<u8>)
    ensures
        byte_sum(bytes) <= 255 * bytes.len(),
    decreases bytes.len(),
{
    if bytes.len() > 0 {
        lemma_byte_sum_bound(bytes.drop_last());
    }
}

/// The checksum that a header holds is the checksum of the header.
pub proof fn law_checksum_is_right(field: Seq<u8>, size: u64, mode: u32)
    requires
        field.len() == 100,
    ensures
        octal_value(entry_header(field, size, mode).subrange(148, 155)) == checksum(
            entry_header(field, size, mode),
        ),
{
    let blank = unsigned_header(field, size, mode);
    let header = entry_header(field, size, mode);
    lemma_field_widths(size, mode, checksum(blank));
    let marks = Seq::new(8, |i: int| 0x20u8);
    assert(with_field(header, 148, marks) == with_field(blank, 148, marks));
    lemma_byte_sum_bound(with_field(blank, 148, marks));
    assert(header.subrange(148, 155) == octal_digits(checksum(blank), 7));
    reveal_with_fuel(octal_limit, 8);
    law_octal_reads_back(checksum(blank), 7);
}

/// An entry takes up whole blocks.
pub proof fn law_entries_are_whole_blocks(field: Seq<u8>, mode: u32, content: Seq<u8>)
    requires
        field.len() == 100,
    ensures
        entry_bytes(field, mode, content).len() % 512 == 0,
{
    let size = content.len();
    let header = entry_header(field, size as u64, mode);
    law_header_holds_the_fields(field, size as u64, mode);
    assert(entry_bytes(field, mode, content).len() == header.len() + size + padding(size));
    lemma_padding_fills_blocks(size);
}

/// Content and what fills its last block up take up whole blocks.
proof fn lemma_padding_fills_blocks(size: nat)
    ensures
        (512 + size + padding(size)) % 512 == 0,
{
    let over = size % 512;
    assert(size == 512 * (size / 512) + over);
    if over == 0 {
        assert(padding(size) == 0);
    } else {
        assert(padding(size) == 512 - over);
    }
}

/// The bytes that a step sends.
pub open spec fn sent_by(step: Step) -> Seq<u8> {
    match step {
        Step::Send(chunk) => chunk@,
        _ => seq![],
    }
}

/// Whether a step adds a part to what is written, and what it sends to what is
/// sent.
pub open spec fn goes_on(before: Progress, after: Progress, part: Seq<u8>, step: Step) -> bool {
    &&& after.written == before.written + part
    &&& after.sent == before.sent + sent_by(step)
}

/// Parts one after the other.
pub open spec fn in_a_row(parts: Seq<Seq<u8>>) -> Seq<u8>
    decreases parts.len(),
{
    if parts.len() == 0 {
        seq![]
    } else {
        in_a_row(parts.drop_last()) + parts.last()
    }
}

/// A path that is made of plain names is its own name in an archive.
pub proof fn law_plain_paths_are_kept(path: Seq<char>)
    requires
        !path.contains('\0'),
        forall|k: int|
            0 <= k < text::pieces(path, '/').len() ==> {
                &&& (#[trigger] text::pieces(path, '/')[k]).len() > 0
                &&& text::pieces(path, '/')[k] != seq!['.']
                &&& text::pieces(path, '/')[k] != seq!['.', '.']
            },
    ensures
        entry_name(path) == Some(path),
{
    let parts = text::pieces(path, '/');
    text::law_pieces_join_to_the_text(path, '/');
    lemma_plain_names(parts);
    if parts.contains(seq!['.', '.']) {
        let k = parts.index_of(seq!['.', '.']);
        assert(parts[k] == seq!['.', '.']);
    }
    if path.len() == 0 {
        assert(parts[0].len() > 0);
    } else {
        lemma_ends_of_pieces(path, '/');
        assert(parts[0].len() > 0);
        assert(parts[parts.len() - 1].len() > 0);
    }
}

proof fn lemma_plain_names(parts: Seq<Seq<char>>)
    requires
        forall|k: int|
            0 <= k < parts.len() ==> (#[trigger] parts[k]).len() > 0 && parts[k] != seq!['.'],
    ensures
        path_names(parts) == parts,
    decreases parts.len(),
{
    if parts.len() > 0 {
        let before = parts.drop_last();
        assert(forall|k: int| 0 <= k < before.len() ==> before[k] == parts[k]);
        lemma_plain_names(before);
        assert(parts[parts.len() - 1] == parts.last());
        assert(before.push(parts.last()) == parts);
    }
}

/// A separator at an end of a text makes the piece there empty.
proof fn lemma_ends_of_pieces(s: Seq<char>, separator: char)
    requires
        s.len() > 0,
    ensures
        text::pieces(s, separator).len() > 0,
        s[0] == separator ==> text::pieces(s, separator)[0].len() == 0,
        s.last() == separator ==> text::pieces(s, separator).last().len() == 0,
    decreases s.len(),
{
    text::law_pieces_join_to_the_text(s.drop_last(), separator);
    if s.len() > 1 {
        lemma_ends_of_pieces(s.drop_last(), separator);
        if s[0] == separator && s.last() != separator {
            lemma_first_piece_stays(s.drop_last(), separator);
        }
    } else {
        assert(s.drop_last() == Seq::<char>::empty());
    }
}

/// A text that starts with a separator has more than one piece.
proof fn lemma_first_piece_stays(s: Seq<char>, separator: char)
    requires
        s.len() > 0,
        s[0] == separator,
    ensures
        text::pieces(s, separator).len() > 1,
    decreases s.len(),
{
    text::law_pieces_join_to_the_text(s.drop_last(), separator);
    if s.len() > 1 {
        lemma_first_piece_stays(s.drop_last(), separator);
    }
}

/// Unless it gives up, a step adds the entry that it is for if that is a file
/// whose path can be stored, and nothing otherwise. It skips the entry where it
/// is a file and its path cannot be stored, and nowhere else.
pub proof fn law_step_adds_its_entry(
    before: Progress,
    after: Progress,
    path: Seq<char>,
    mode: u32,
    content: Option<Seq<u8>>,
    step: Step,
)
    requires
        adds(before, after, path, mode, content, step),
        !(step is Abort),
    ensures
        goes_on(
            before,
            after,
            match (content, stored_name(path)) {
                (Some(content), Some(name)) => entry_bytes(name_field(name), mode, content),
                _ => seq![],
            },
            step,
        ),
        step is Skip <==> content is Some && stored_name(path) is None,
{
    let (outcome, written) = choose|outcome: Outcome, written: Progress|
        #[trigger] writes(before, written, path, mode, content, outcome) && follows(
            written,
            after,
            outcome,
            step,
        );
    if outcome is Written {
        assert(goes_on(
            before,
            after,
            entry_bytes(name_field(stored_name(path)->0), mode, content->0),
            step,
        ));
    } else {
        assert(goes_on(before, after, seq![], step));
    }
}

/// A file whose step neither skips it nor gives it up is in the archive, behind
/// what was there: a block that tells its name, its mode and its size, then the
/// whole content, whatever the mode, then zeros up to the end of the block. The
/// numbers are those that their octal digits stand for, where the digits suffice.
pub proof fn law_added_file_is_in_the_archive(
    before: Progress,
    after: Progress,
    path: Seq<char>,
    mode: u32,
    content: Seq<u8>,
    step: Step,
)
    requires
        adds(before, after, path, mode, Some(content), step),
        step is Continue || step is Send,
        content.len() <= u64::MAX,
    ensures
        ({
            let entry = after.written.skip(before.written.len() as int);
            &&& after.written.len() >= before.written.len()
            &&& after.written.take(before.written.len() as int) == before.written
            &&& stored_name(path) matches Some(name) && is_entry(entry, name, mode, content)
        }),
{
    law_step_adds_its_entry(before, after, path, mode, Some(content), step);
    let name = stored_name(path)->0;
    let entry = entry_bytes(name_field(name), mode, content);
    assert(after.written == before.written + entry);
    assert(after.written.skip(before.written.len() as int) == entry);
    law_entry_holds_the_file(name, mode, content);
}

/// Whether bytes are an entry for a file: a block with its name, its mode and its
/// size, the content, and zeros up to the end of the block.
pub open spec fn is_entry(entry: Seq<u8>, name: Seq<char>, mode: u32, content: Seq<u8>) -> bool {
    let bytes = encode_utf8(name);
    let end = (512 + content.len()) as int;
    &&& entry.len() % 512 == 0
    &&& end <= entry.len() < end + 512
    &&& entry.subrange(512, end) == content
    &&& forall|i: int| end <= i < entry.len() ==> #[trigger] entry[i] == 0
    &&& bytes.len() <= 100
    &&& entry.take(bytes.len() as int) == bytes
    &&& forall|i: int| bytes.len() <= i < 100 ==> #[trigger] entry[i] == 0
    &&& mode < 0o10_000_000 ==> octal_value(entry.subrange(100, 107)) == mode
    &&& content.len() < 0o100_000_000_000 ==> octal_value(entry.subrange(124, 135))
        == content.len()
}

/// The bytes for a file are an entry for it, with the whole of its content,
/// whatever its mode.
pub proof fn law_entry_holds_the_file(name: Seq<char>, mode: u32, content: Seq<u8>)
    requires
        encode_utf8(name).len() <= 100,
        content.len() <= u64::MAX,
    ensures
        is_entry(entry_bytes(name_field(name), mode, content), name, mode, content),
{
    let field = name_field(name);
    let size = content.len() as u64;
    let header = entry_header(field, size, mode);
    let entry = entry_bytes(field, mode, content);
    let bytes = encode_utf8(name);
    law_header_holds_the_fields(field, size, mode);
    law_entries_are_whole_blocks(field, mode, content);
    assert(padding(content.len()) < 512);
    assert(entry.subrange(512, (512 + content.len()) as int) == content);
    assert(entry.subrange(0, 100) == header.subrange(0, 100));
    assert(entry.subrange(0, 100) == field);
    assert(entry.take(bytes.len() as int) == field.take(bytes.len() as int));
    assert(field.take(bytes.len() as int) == bytes);
    assert forall|i: int| bytes.len() <= i < 100 implies #[trigger] entry[i] == 0 by {
        assert(entry[i] == entry.subrange(0, 100)[i]);
    }
    let mode_digits = octal_digits(mode as nat, 7);
    let size_digits = octal_digits(size as nat, 11);
    lemma_octal_digits_len(mode as nat, 7);
    lemma_octal_digits_len(size as nat, 11);
    assert(entry.subrange(100, 107) == mode_digits) by {
        assert(header.subrange(100, 108) == mode_digits.push(0));
        assert forall|i: int| 0 <= i < 7 implies entry.subrange(100, 107)[i]
            == mode_digits[i] by {
            assert(entry.subrange(100, 107)[i] == header.subrange(100, 108)[i]);
        }
    }
    reveal_with_fuel(octal_limit, 12);
    if mode < 0o10_000_000 {
        law_octal_reads_back(mode as nat, 7);
    }
    if content.len() < 0o100_000_000_000 {
        assert(entry.subrange(124, 135) == size_digits) by {
            assert(header.subrange(124, 136) == size_digits.push(0));
            assert forall|i: int| 0 <= i < 11 implies entry.subrange(124, 135)[i]
                == size_digits[i] by {
                assert(entry.subrange(124, 135)[i] == header.subrange(124, 136)[i]);
            }
        }
        law_octal_reads_back(size as nat, 11);
    }
}

/// A file is given up if and only if its path can be stored and the archive does
/// not take what would be written: the first block of the entry and the whole
/// content. What is no file, or has no name in an archive, is never given up.
pub proof fn law_only_what_is_not_taken_is_given_up(
    archive: Archive,
    path: Seq<char>,
    mode: u32,
    content: Option<Seq<u8>>,
)
    ensures
        archive.gives_up_on(path, mode, content) <==> {
            &&& content matches Some(content)
            &&& stored_name(path) matches Some(name)
            &&& !archive.takes(entry_bytes(name_field(name), mode, content).take(512), content)
        },
{
    if let (Some(content), Some(name)) = (content, stored_name(path)) {
        let header = entry_header(name_field(name), content.len() as u64, mode);
        law_header_holds_the_fields(name_field(name), content.len() as u64, mode);
        assert(entry_bytes(name_field(name), mode, content).take(512) == header);
    }
}

/// A chunk is sent as soon as half a mebibyte waits, and is all that waits. While
/// the archive goes on without sending, less than that waits.
pub proof fn law_chunks_are_sent_in_time(
    before: Progress,
    after: Progress,
    path: Seq<char>,
    mode: u32,
    content: Option<Seq<u8>>,
    step: Step,
)
    requires
        adds(before, after, path, mode, content, step),
    ensures
        step is Continue ==> after.sent == before.sent && after.waiting.len() < 524_288,
        step is Skip ==> after == before,
        step matches Step::Send(chunk) ==> {
            &&& chunk@.len() >= 524_288
            &&& after.sent == before.sent + chunk@
            &&& after.waiting.len() == 0
        },
        content is None ==> after.written == before.written && !(step is Skip) && !(step is Abort),
{
    let (outcome, written) = choose|outcome: Outcome, written: Progress|
        #[trigger] writes(before, written, path, mode, content, outcome) && follows(
            written,
            after,
            outcome,
            step,
        );
    assert(writes(before, written, path, mode, content, outcome));
}

/// What is sent step by step, and the rest at the end, is a gzip stream of the
/// parts that the steps added and two blocks of zeros.
pub proof fn law_archive_is_sent_whole(
    states: Seq<Progress>,
    parts: Seq<Seq<u8>>,
    steps: Seq<Step>,
    rest: Seq<u8>,
)
    requires
        states.len() == steps.len() + 1,
        parts.len() == steps.len(),
        states[0].written.len() == 0,
        states[0].sent.len() == 0,
        forall|k: int|
            0 <= k < steps.len() ==> #[trigger] goes_on(
                states[k],
                states[k + 1],
                parts[k],
                steps[k],
            ),
        unzipped(states.last().sent + rest) == Some(states.last().written + zeros(1024)),
    ensures
        unzipped(in_a_row(steps.map_values(|step: Step| sent_by(step))) + rest) == Some(
            in_a_row(parts) + zeros(1024),
        ),
{
    lemma_steps_add_up(states, parts, steps);
}

proof fn lemma_steps_add_up(states: Seq<Progress>, parts: Seq<Seq<u8>>, steps: Seq<Step>)
    requires
        states.len() == steps.len() + 1,
        parts.len() == steps.len(),
        states[0].written.len() == 0,
        states[0].sent.len() == 0,
        forall|k: int|
            0 <= k < steps.len() ==> #[trigger] goes_on(
                states[k],
                states[k + 1],
                parts[k],
                steps[k],
            ),
    ensures
        states.last().written == in_a_row(parts),
        states.last().sent == in_a_row(steps.map_values(|step: Step| sent_by(step))),
    decreases steps.len(),
{
    let chunks = steps.map_values(|step: Step| sent_by(step));
    if steps.len() == 0 {
        assert(states.last().written == in_a_row(parts));
        assert(states.last().sent == in_a_row(chunks));
    } else {
        let n = steps.len() - 1;
        let fewer = states.drop_last();
        assert forall|k: int| 0 <= k < n implies #[trigger] goes_on(
            fewer[k],
            fewer[k + 1],
            parts.drop_last()[k],
            steps.drop_last()[k],
        ) by {
            assert(goes_on(states[k], states[k + 1], parts[k], steps[k]));
        }
        lemma_steps_add_up(fewer, parts.drop_last(), steps.drop_last());
        assert(goes_on(states[n], states[n + 1], parts[n], steps[n]));
        assert(chunks.drop_last() == steps.drop_last().map_values(|step: Step| sent_by(step)));
    }
}

}
