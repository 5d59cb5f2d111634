//! Cover extraction: the first image of a comic archive.

use crate::comic::CoverImage;
use crate::error::ComicError;
use crate::text::{chars_of, ends_with, is_suffix, lowercase, to_lowercase};
use std::io::Cursor;
use vstd::prelude::*;
use zip::result::ZipError;
use zip::ZipArchive;

verus! {

/// `zip::ZipArchive`, an archive opened for reading.  Nothing inside it is
/// visible here; what is known of it is what the functions below say.
#[verifier::external_type_specification]
#[verifier::external_body]
#[verifier::reject_recursive_types(R)]
pub struct ExZipArchive<R>(ZipArchive<R>);

/// `std::io::Cursor`, the reader through which an archive reads a buffer.
#[verifier::external_type_specification]
#[verifier::external_body]
#[verifier::reject_recursive_types(T)]
pub struct ExCursor<T>(Cursor<T>);

/// `zip::result::ZipError`, the failure of an operation on an archive.
#[verifier::external_type_specification]
#[verifier::external_body]
pub struct ExZipError(ZipError);

/// `std::io::Error`, the failure of a read.
#[verifier::external_type_specification]
#[verifier::external_body]
pub struct ExIoError(std::io::Error);

/// The bytes that an open archive reads from.
pub uninterp spec fn archive_bytes(archive: ZipArchive<Cursor<Vec<u8>>>) -> Seq<u8>;

/// Whether `ZipArchive::new` accepts the bytes as an archive.
pub uninterp spec fn zip_readable(bytes: Seq<u8>) -> bool;

/// The number of entries that the archive's central directory lists.
pub uninterp spec fn zip_entry_count(bytes: Seq<u8>) -> nat;

/// Whether `ZipArchive::by_index_decrypt` turns the empty password down for
/// entry `index`.
pub uninterp spec fn zip_entry_locked(bytes: Seq<u8>, index: nat) -> bool;

/// The name of entry `index` as the central directory gives it, where the
/// entry can be opened.
pub uninterp spec fn zip_entry_name(bytes: Seq<u8>, index: nat) -> Option<Seq<char>>;

/// The content of entry `index`, where it can be read to its end.
pub uninterp spec fn zip_entry_data(bytes: Seq<u8>, index: nat) -> Option<Seq<u8>>;

/// Calls `ZipArchive::new` on a cursor over the bytes.  Trusted: whether the
/// call succeeds depends on the bytes alone, and the archive it returns reads
/// from these bytes.
#[verifier::external_body]
fn open_archive(data: Vec<u8>) -> (r: Result<ZipArchive<Cursor<Vec<u8>>>, ZipError>)
    ensures
        r is Ok <==> zip_readable(data@),
        r matches Ok(archive) ==> archive_bytes(archive) == data@,
{
    ZipArchive::new(Cursor::new(data))
}

/// Calls `ZipArchive::len`.  Trusted: the number of entries is fixed by the
/// bytes that the archive was opened on.
#[verifier::external_body]
fn entry_count(archive: &ZipArchive<Cursor<Vec<u8>>>) -> (n: usize)
    ensures
        n == zip_entry_count(archive_bytes(*archive)),
{
    archive.len()
}

/// Calls `ZipArchive::by_index_decrypt` with an empty password and says
/// whether the archive turned the password down.  Trusted: the answer
/// depends on the archive's bytes and the index alone, and the call leaves
/// the bytes as they are.
#[verifier::external_body]
fn entry_locked(archive: &mut ZipArchive<Cursor<Vec<u8>>>, index: usize) -> (locked: bool)
    ensures
        archive_bytes(*final(archive)) == archive_bytes(*old(archive)),
        locked == zip_entry_locked(archive_bytes(*old(archive)), index as nat),
{
    match archive.by_index_decrypt(index, &[]) {
        Ok(Ok(_)) => false,
        Ok(Err(_)) => true,
        Err(_) => false,
    }
}

/// Calls `ZipArchive::by_index` and, on the entry it returns,
/// `ZipFile::name`.  `by_index` unwraps the outcome of the password check,
/// so it may be called only on an entry that `entry_locked` has cleared.
/// Trusted: success and the name depend on the archive's bytes and the index
/// alone, and the call leaves the bytes as they are.
#[verifier::external_body]
fn entry_name(archive: &mut ZipArchive<Cursor<Vec<u8>>>, index: usize) -> (r: Result<
    String,
    ZipError,
>)
    requires
        !zip_entry_locked(archive_bytes(*old(archive)), index as nat),
    ensures
        archive_bytes(*final(archive)) == archive_bytes(*old(archive)),
        match r {
            Ok(name) => zip_entry_name(archive_bytes(*old(archive)), index as nat) == Some(
                name@,
            ),
            Err(_) => zip_entry_name(archive_bytes(*old(archive)), index as nat) is None,
        },
{
    match archive.by_index(index) {
        Ok(file) => Ok(file.name().to_string()),
        Err(e) => Err(e),
    }
}

/// Calls `ZipArchive::by_index` and copies the entry to its end with
/// `std::io::copy`.  Like `entry_name` it may be called only on an entry
/// that `entry_locked` has cleared.  Trusted: success and the bytes read
/// depend on the archive's bytes and the index alone, and the call leaves
/// the archive's bytes as they are.
#[verifier::external_body]
fn entry_data(archive: &mut ZipArchive<Cursor<Vec<u8>>>, index: usize) -> (r: Result<
    Vec<u8>,
    std::io::Error,
>)
    requires
        !zip_entry_locked(archive_bytes(*old(archive)), index as nat),
    ensures
        archive_bytes(*final(archive)) == archive_bytes(*old(archive)),
        match r {
            Ok(data) => zip_entry_data(archive_bytes(*old(archive)), index as nat) == Some(
                data@,
            ),
            Err(_) => zip_entry_data(archive_bytes(*old(archive)), index as nat) is None,
        },
{
    let mut file = archive.by_index(index)?;
    let mut data: Vec<u8> = Vec::new();
    std::io::copy(&mut file, &mut data)?;
    Ok(data)
}

/// A name, folded to lower case already, is an image's where it ends in
/// `.jpg`, `.jpeg`, `.png` or `.gif`.
pub open spec fn is_image_name(lowered: Seq<char>) -> bool {
    ||| is_suffix(".jpg"@, lowered)
    ||| is_suffix(".jpeg"@, lowered)
    ||| is_suffix(".png"@, lowered)
    ||| is_suffix(".gif"@, lowered)
}

/// Whether a name, folded to lower case already, is an image's.
pub fn has_image_suffix(lowered: &str) -> (b: bool)
    ensures
        b == is_image_name(lowered@),
{
    let chars = chars_of(lowered);
    ends_with(&chars, &chars_of(".jpg")) || ends_with(&chars, &chars_of(".jpeg")) || ends_with(
        &chars,
        &chars_of(".png"),
    ) || ends_with(&chars, &chars_of(".gif"))
}

/// What the search for a cover finds from entry `from` on: the content of
/// the first entry whose name, in lower case, is an image's.  An entry in
/// the way for which the empty password is turned down or which cannot be
/// opened, and an image that cannot be read, make the archive corrupt; an
/// archive without an image has no cover.
pub open spec fn cover_from(bytes: Seq<u8>, from: nat) -> Result<Seq<u8>, ComicError>
    decreases zip_entry_count(bytes) - from,
{
    if from >= zip_entry_count(bytes) {
        Err(ComicError::NoCoverFound)
    } else if zip_entry_locked(bytes, from) {
        Err(ComicError::CorruptArchive)
    } else {
        match zip_entry_name(bytes, from) {
            None => Err(ComicError::CorruptArchive),
            Some(name) => if is_image_name(lowercase(name)) {
                match zip_entry_data(bytes, from) {
                    Some(data) => Ok(data),
                    None => Err(ComicError::CorruptArchive),
                }
            } else {
                cover_from(bytes, from + 1)
            },
        }
    }
}

/// The cover of the archive that the bytes hold, or why it has none.
pub open spec fn cover_of(bytes: Seq<u8>) -> Result<Seq<u8>, ComicError> {
    if zip_readable(bytes) {
        cover_from(bytes, 0)
    } else {
        Err(ComicError::CorruptArchive)
    }
}

/// Extracts the cover of a comic archive: the content of its first entry, in
/// the order of the archive's listing, whose name ends in `.jpg`, `.jpeg`,
/// `.png` or `.gif` without regard to case.  No entry behind that one is
/// read.
pub fn extract_cover(file_bytes: Vec<u8>) -> (r: Result<CoverImage, ComicError>)
    ensures
        match r {
            Ok(cover) => cover_of(file_bytes@) == Ok::<Seq<u8>, ComicError>(cover@),
            Err(e) => cover_of(file_bytes@) == Err::<Seq<u8>, ComicError>(e),
        },
{
    let ghost bytes = file_bytes@;
    let mut archive = match open_archive(file_bytes) {
        Ok(archive) => archive,
        Err(_) => {
            return Err(ComicError::CorruptArchive);
        },
    };
    let count: usize = entry_count(&archive);
    let mut index: usize = 0;
    while index < count
        invariant
            index <= count,
            bytes == file_bytes@,
            count == zip_entry_count(bytes),
            archive_bytes(archive) == bytes,
            cover_of(bytes) == cover_from(bytes, index as nat),
        decreases count - index,
    {
        if entry_locked(&mut archive, index) {
            return Err(ComicError::CorruptArchive);
        }
        let name = match entry_name(&mut archive, index) {
            Ok(name) => name,
            Err(_) => {
                return Err(ComicError::CorruptArchive);
            },
        };
        let lowered = to_lowercase(name.as_str());
        if has_image_suffix(lowered.as_str()) {
            return match entry_data(&mut archive, index) {
                Ok(data) => Ok(CoverImage { data }),
                Err(_) => Err(ComicError::CorruptArchive),
            };
        }
        index += 1;
    }
    Err(ComicError::NoCoverFound)
}

} // verus!
