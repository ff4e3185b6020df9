//! The parts of a Word package: the body (`word/document.xml`) and the
//! style sheet (`word/styles.xml`), read out of the ZIP archive.

use vstd::prelude::*;
use std::io::{Cursor, Read};
use zip::ZipArchive;
use crate::text::push_str;
use crate::xmlread::opt_chars;

verus! {

#[verifier::external_type_specification]
#[verifier::external_body]
#[verifier::reject_recursive_types(R)]
pub struct ExZipArchive<R>(zip::ZipArchive<R>);

#[verifier::external_type_specification]
#[verifier::external_body]
#[verifier::reject_recursive_types(T)]
pub struct ExCursor<T>(std::io::Cursor<T>);

/// Why an entry of an archive could not be read.
#[derive(Debug, Clone)]
pub enum EntryError {
    /// The archive has no such entry (with the archive's message).
    Missing(String),
    /// The entry could not be read (with the message).
    Unreadable(String),
}

/// Whether `zip::ZipArchive::new` accepts `bytes` as an archive.
pub uninterp spec fn zip_opens(bytes: Seq<u8>) -> bool;

/// The message of the error `zip::ZipArchive::new` gives for `bytes`.
pub uninterp spec fn zip_open_error(bytes: Seq<u8>) -> Seq<char>;

/// What reading the entry `name` of the archive in `bytes` gives
/// (`ZipArchive::by_name`, then `Read::read_to_end`): its bytes, or the error
/// with its message. The archive is read out of `bytes` alone, so this
/// depends on the two arguments only.
pub uninterp spec fn zip_entry(bytes: Seq<u8>, name: Seq<char>) -> Result<Seq<u8>, EntryError>;

/// An archive opened over some bytes, with those bytes as a ghost value.
pub struct ZipPackage<'a> {
    archive: ZipArchive<Cursor<&'a [u8]>>,
    bytes: Ghost<Seq<u8>>,
}

impl<'a> ZipPackage<'a> {
    pub closed spec fn bytes(&self) -> Seq<u8> {
        self.bytes@
    }
}

/// An entry read, by its bytes' view.
pub open spec fn entry_view(r: Result<Vec<u8>, EntryError>) -> Result<Seq<u8>, EntryError> {
    match r {
        Ok(v) => Ok(v@),
        Err(e) => Err(e),
    }
}

/// `zip::ZipArchive::new` on the bytes: the archive, or the message of why
/// the bytes are not one.
#[verifier::external_body]
fn open_archive<'a>(bytes: &'a [u8]) -> (r: Result<ZipPackage<'a>, String>)
    ensures
        r is Ok == zip_opens(bytes@),
        r matches Ok(p) ==> p.bytes() == bytes@,
        r matches Err(m) ==> m@ == zip_open_error(bytes@),
{
    match ZipArchive::new(Cursor::new(bytes)) {
        Ok(archive) => Ok(ZipPackage { archive, bytes: Ghost(bytes@) }),
        Err(e) => Err(e.to_string()),
    }
}

/// `zip::ZipArchive::by_name`, then `Read::read_to_end` on the entry: its
/// bytes, or why there are none.
#[verifier::external_body]
fn entry_bytes(p: &mut ZipPackage, name: &str) -> (r: Result<Vec<u8>, EntryError>)
    ensures
        final(p).bytes() == old(p).bytes(),
        entry_view(r) == zip_entry(old(p).bytes(), name@),
{
    let mut file = match p.archive.by_name(name) {
        Ok(f) => f,
        Err(e) => return Err(EntryError::Missing(e.to_string())),
    };
    let mut buf = Vec::new();
    match file.read_to_end(&mut buf) {
        Ok(_) => Ok(buf),
        Err(e) => Err(EntryError::Unreadable(e.to_string())),
    }
}

/// What `String::from_utf8_lossy` makes of some bytes.
pub uninterp spec fn utf8_lossy(bytes: Seq<u8>) -> Seq<char>;

/// `String::from_utf8_lossy`: the text of the bytes, invalid sequences
/// replaced by U+FFFD.
#[verifier::external_body]
fn lossy_text(bytes: &[u8]) -> (r: String)
    ensures
        r@ == utf8_lossy(bytes@),
{
    String::from_utf8_lossy(bytes).into_owned()
}

/// The message for an entry that is missing.
pub open spec fn missing_message(name: Seq<char>, e: Seq<char>) -> Seq<char> {
    "docx 缺少 "@ + name + "："@ + e
}

/// The message for an entry that cannot be read.
pub open spec fn unreadable_message(name: Seq<char>, e: Seq<char>) -> Seq<char> {
    "读取 "@ + name + " 失败："@ + e
}

/// The message for an entry that could not be read.
pub open spec fn entry_message(name: Seq<char>, e: EntryError) -> Seq<char> {
    match e {
        EntryError::Missing(m) => missing_message(name, m@),
        EntryError::Unreadable(m) => unreadable_message(name, m@),
    }
}

/// The text of an entry, if it can be read.
pub open spec fn entry_text(bytes: Seq<u8>, name: Seq<char>) -> Option<Seq<char>> {
    match zip_entry(bytes, name) {
        Ok(b) => Some(utf8_lossy(b)),
        Err(_) => None,
    }
}

/// Reads an entry of the package as text (invalid UTF-8 replaced).
fn read_entry(archive: &mut ZipPackage, name: &str) -> (r: Result<String, String>)
    ensures
        final(archive).bytes() == old(archive).bytes(),
        match zip_entry(old(archive).bytes(), name@) {
            Ok(b) => (r matches Ok(t) && t@ == utf8_lossy(b)),
            Err(e) => (r matches Err(m) && m@ == entry_message(name@, e)),
        },
{
    match entry_bytes(archive, name) {
        Ok(b) => Ok(lossy_text(b.as_slice())),
        Err(EntryError::Missing(e)) => {
            let mut m = String::new();
            push_str(&mut m, "docx 缺少 ");
            push_str(&mut m, name);
            push_str(&mut m, "：");
            push_str(&mut m, e.as_str());
            assert(m@ =~= missing_message(name@, e@));
            Err(m)
        },
        Err(EntryError::Unreadable(e)) => {
            let mut m = String::new();
            push_str(&mut m, "读取 ");
            push_str(&mut m, name);
            push_str(&mut m, " 失败：");
            push_str(&mut m, e.as_str());
            assert(m@ =~= unreadable_message(name@, e@));
            Err(m)
        },
    }
}

/// Reads an entry of the package as text, if it can be read.
fn read_entry_optional(archive: &mut ZipPackage, name: &str) -> (r: Option<String>)
    ensures
        final(archive).bytes() == old(archive).bytes(),
        opt_chars(r) == entry_text(old(archive).bytes(), name@),
{
    match entry_bytes(archive, name) {
        Ok(b) => Some(lossy_text(b.as_slice())),
        Err(_) => None,
    }
}

/// Why a package could not be read.
#[derive(Debug, Clone)]
pub enum PackageError {
    /// The bytes are not a ZIP archive (with the archive's message).
    NotAnArchive(String),
    /// The body part is missing or unreadable (with the full message).
    Body(String),
}

/// The body and style sheet of a Word package: the body must be there, the
/// style sheet may be missing.
pub fn package_parts(bytes: &[u8]) -> (r: Result<(String, Option<String>), PackageError>)
    ensures
        !zip_opens(bytes@) ==> (r matches Err(PackageError::NotAnArchive(m)) && m@ == zip_open_error(bytes@)),
        zip_opens(bytes@) ==> match zip_entry(bytes@, "word/document.xml"@) {
            Err(e) => (r matches Err(PackageError::Body(m)) && m@ == entry_message("word/document.xml"@, e)),
            Ok(b) => (r matches Ok((body, styles)) && body@ == utf8_lossy(b) && opt_chars(styles)
                == entry_text(bytes@, "word/styles.xml"@)),
        },
{
    let mut archive = match open_archive(bytes) {
        Ok(a) => a,
        Err(e) => return Err(PackageError::NotAnArchive(e)),
    };
    let body = match read_entry(&mut archive, "word/document.xml") {
        Ok(t) => t,
        Err(m) => return Err(PackageError::Body(m)),
    };
    let styles = read_entry_optional(&mut archive, "word/styles.xml");
    Ok((body, styles))
}

} // verus!
