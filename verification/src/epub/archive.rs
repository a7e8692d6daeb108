//! The ZIP container, read with `zip::ZipArchive` and written with
//! `zip::ZipWriter`, seen through the entries it holds.

use std::io::{Cursor, Read, Write};
use vstd::prelude::*;
use vstd::string::StringSliceAdditionalSpecFns;
use zip::result::ZipError;
use zip::write::SimpleFileOptions;
use zip::{CompressionMethod, ZipArchive, ZipWriter};

verus! {

#[verifier::external_type_specification]
#[verifier::external_body]
#[verifier::reject_recursive_types(T)]
pub struct ExCursor<T>(Cursor<T>);

#[verifier::external_type_specification]
#[verifier::external_body]
#[verifier::reject_recursive_types(R)]
pub struct ExZipArchive<R>(ZipArchive<R>);

#[verifier::external_type_specification]
#[verifier::external_body]
pub struct ExZipError(ZipError);

/// An archive read from bytes in memory.
pub type Archive = ZipArchive<Cursor<Vec<u8>>>;

/// The entries of the ZIP archive encoded by `data`, in central-directory
/// order: each entry's name and uncompressed content.
pub uninterp spec fn zip_contents(data: Seq<u8>) -> Seq<(Seq<char>, Seq<u8>)>;

/// The entries an opened archive holds: name and uncompressed content.
pub uninterp spec fn archive_entries(a: Archive) -> Seq<(Seq<char>, Seq<u8>)>;

/// The bytes an opened archive reads from.
pub uninterp spec fn archive_bytes(a: Archive) -> Seq<u8>;

/// `zip::ZipArchive::new` accepts `data` as a ZIP archive.
pub uninterp spec fn zip_opens(data: Seq<u8>) -> bool;

/// `ZipArchive::by_index(i)` succeeds on the archive read from `data`.
pub uninterp spec fn zip_entry_opens(data: Seq<u8>, i: int) -> bool;

/// Reading entry `i` of the archive read from `data` to its end succeeds:
/// its data decompresses and its checksum matches.
pub uninterp spec fn zip_entry_reads(data: Seq<u8>, i: int) -> bool;

/// Opens an archive with `zip::ZipArchive::new` over a `Cursor` of `data`.
/// What is claimed: whether it opens is a function of the bytes
/// (`zip_opens`), and an archive that opens reads from those bytes and
/// holds the entries that they encode.
#[verifier::external_body]
pub(crate) fn open_archive(data: Vec<u8>) -> (r: Result<Archive, ZipError>)
    ensures
        r is Ok <==> zip_opens(data@),
        r matches Ok(a) ==> archive_entries(a) == zip_contents(data@) && archive_bytes(a) == data@,
{
    ZipArchive::new(Cursor::new(data))
}

/// The number of entries, with `ZipArchive::len`.
#[verifier::external_body]
pub(crate) fn archive_len(a: &Archive) -> (r: usize)
    ensures
        r == archive_entries(*a).len(),
{
    a.len()
}

/// The name of entry `i`, with `ZipArchive::by_index` and `ZipFile::name`.
/// What is claimed: the call succeeds exactly when `by_index` does, which
/// is a function of the archive's bytes and `i` (`zip_entry_opens`); on
/// success `i` is an entry and the name is its name; the archive read from
/// and the entries held do not change.
#[verifier::external_body]
pub(crate) fn entry_name(a: &mut Archive, i: usize) -> (r: Result<String, ZipError>)
    ensures
        archive_entries(*final(a)) == archive_entries(*old(a)),
        archive_bytes(*final(a)) == archive_bytes(*old(a)),
        r is Ok <==> zip_entry_opens(archive_bytes(*old(a)), i as int),
        r matches Ok(name) ==> i < archive_entries(*old(a)).len() && name@ == archive_entries(
            *old(a),
        )[i as int].0,
{
    Ok(a.by_index(i)?.name().to_string())
}

/// The uncompressed content of entry `i`, with `ZipArchive::by_index` and
/// `Read::read_to_end` on the entry. What is claimed: the call succeeds
/// exactly when `by_index` succeeds (`zip_entry_opens`) and the read to the
/// end does (`zip_entry_reads`), both functions of the archive's bytes and
/// `i`; on success `i` is an entry and the bytes are its content; the
/// archive read from and the entries held do not change.
#[verifier::external_body]
pub(crate) fn entry_data(a: &mut Archive, i: usize) -> (r: Result<Vec<u8>, ZipError>)
    ensures
        archive_entries(*final(a)) == archive_entries(*old(a)),
        archive_bytes(*final(a)) == archive_bytes(*old(a)),
        r is Ok <==> zip_entry_opens(archive_bytes(*old(a)), i as int) && zip_entry_reads(
            archive_bytes(*old(a)),
            i as int,
        ),
        r matches Ok(bytes) ==> i < archive_entries(*old(a)).len() && bytes@ == archive_entries(
            *old(a),
        )[i as int].1,
{
    let mut file = a.by_index(i)?;
    let mut raw = Vec::new();
    file.read_to_end(&mut raw)?;
    Ok(raw)
}

/// An entry as written: name, stored (uncompressed) or not, directory or
/// not, and uncompressed content.
pub type WrittenEntry = (Seq<char>, bool, bool, Seq<u8>);

/// How an entry's content is compressed.
#[derive(Clone, Copy, PartialEq, Eq, Structural)]
pub enum Compression {
    Stored,
    Deflated,
}

/// A ZIP archive being written to memory with `zip::ZipWriter`.
#[verifier::external_body]
pub struct EpubWriter {
    inner: ZipWriter<Cursor<Vec<u8>>>,
}

/// The entries written so far.
pub uninterp spec fn written_entries(w: EpubWriter) -> Seq<WrittenEntry>;

/// Every call on the writer so far has succeeded.
pub uninterp spec fn writer_sound(w: EpubWriter) -> bool;

/// `ZipWriter::start_file` succeeds after the given entries, for a file of
/// that name, stored or deflated.
pub uninterp spec fn zip_start_accepts(written: Seq<WrittenEntry>, name: Seq<char>, stored: bool) -> bool;

/// `ZipWriter::add_directory` succeeds after the given entries, for a
/// directory of that name.
pub uninterp spec fn zip_directory_accepts(written: Seq<WrittenEntry>, name: Seq<char>) -> bool;

/// `Write::write_all` on a `ZipWriter` succeeds after the given entries,
/// for those bytes.
pub uninterp spec fn zip_write_accepts(written: Seq<WrittenEntry>, bytes: Seq<u8>) -> bool;

/// `ZipWriter::finish` succeeds after the given entries.
pub uninterp spec fn zip_finish_accepts(written: Seq<WrittenEntry>) -> bool;

/// The bytes of the finished archive holding the given entries.
pub uninterp spec fn zip_encoding(entries: Seq<WrittenEntry>) -> Seq<u8>;

/// The name `ZipWriter::add_directory` gives a directory: a `/` is appended
/// unless the name already ends with `/` or `\`.
pub open spec fn directory_entry_name(name: Seq<char>) -> Seq<char> {
    if name.len() > 0 && (name.last() == '/' || name.last() == '\\') {
        name
    } else {
        name.push('/')
    }
}

/// A new, empty archive writer, with `ZipWriter::new` over a `Cursor` of an
/// empty vector.
#[verifier::external_body]
pub(crate) fn new_writer() -> (w: EpubWriter)
    ensures
        written_entries(w) == Seq::<WrittenEntry>::empty(),
        writer_sound(w),
{
    EpubWriter { inner: ZipWriter::new(Cursor::new(Vec::new())) }
}

/// Starts a file entry with `ZipWriter::start_file` and the given compression
/// method. What is claimed: on a writer whose calls have all succeeded,
/// success is a function of the entries written so far and the arguments
/// (`zip_start_accepts`: it fails on a duplicate name, or when the previous
/// entry is too large without the large-file option) and keeps the writer
/// sound; on success an empty file entry with that name and method is
/// appended.
#[verifier::external_body]
pub(crate) fn start_file(w: &mut EpubWriter, name: &str, compression: Compression) -> (r: Result<(), ZipError>)
    ensures
        writer_sound(*old(w)) ==> (r is Ok <==> zip_start_accepts(
            written_entries(*old(w)),
            name@,
            compression == Compression::Stored,
        )),
        writer_sound(*old(w)) && r is Ok ==> writer_sound(*final(w)),
        r is Ok ==> written_entries(*final(w)) == written_entries(*old(w)).push(
            (name@, compression == Compression::Stored, false, Seq::<u8>::empty()),
        ),
{
    let method = match compression {
        Compression::Stored => CompressionMethod::Stored,
        Compression::Deflated => CompressionMethod::Deflated,
    };
    w.inner.start_file(name, SimpleFileOptions::default().compression_method(method))
}

/// Adds a directory entry with `ZipWriter::add_directory` (which always
/// stores directories). What is claimed: on a writer whose calls have all
/// succeeded, success is a function of the entries written so far and the
/// name (`zip_directory_accepts`) and keeps the writer sound; on success a
/// stored, empty directory entry is appended under `directory_entry_name`.
#[verifier::external_body]
pub(crate) fn add_directory(w: &mut EpubWriter, name: &str) -> (r: Result<(), ZipError>)
    ensures
        writer_sound(*old(w)) ==> (r is Ok <==> zip_directory_accepts(written_entries(*old(w)), name@)),
        writer_sound(*old(w)) && r is Ok ==> writer_sound(*final(w)),
        r is Ok ==> written_entries(*final(w)) == written_entries(*old(w)).push(
            (directory_entry_name(name@), true, true, Seq::<u8>::empty()),
        ),
{
    w.inner.add_directory(name, SimpleFileOptions::default().compression_method(CompressionMethod::Deflated))
}

/// Writes content to the current file entry with `Write::write_all`. What is
/// claimed: on a writer whose calls have all succeeded, success is a
/// function of the entries written so far and the bytes
/// (`zip_write_accepts`) and keeps the writer sound; on success the bytes
/// are appended to the last entry's content (an empty write changes
/// nothing).
#[verifier::external_body]
pub(crate) fn write_all(w: &mut EpubWriter, bytes: &[u8]) -> (r: Result<(), ZipError>)
    ensures
        writer_sound(*old(w)) ==> (r is Ok <==> zip_write_accepts(written_entries(*old(w)), bytes@)),
        writer_sound(*old(w)) && r is Ok ==> writer_sound(*final(w)),
        r is Ok && bytes@.len() == 0 ==> written_entries(*final(w)) == written_entries(*old(w)),
        r is Ok && bytes@.len() > 0 ==> {
            let before = written_entries(*old(w));
            let last = before.last();
            before.len() > 0 && written_entries(*final(w)) == before.update(
                before.len() - 1,
                (last.0, last.1, last.2, last.3 + bytes@),
            )
        },
{
    Ok(w.inner.write_all(bytes)?)
}

/// Finishes the archive with `ZipWriter::finish` and takes its bytes out of
/// the `Cursor`. What is claimed: on a writer whose calls have all
/// succeeded, success is a function of the entries written
/// (`zip_finish_accepts`); the bytes are the encoding of the entries
/// written (a function of those entries alone); and the finished archive
/// reads back: it opens, every entry opens and reads, and its entries are
/// the names and contents written, in the order written.
#[verifier::external_body]
pub(crate) fn finish(w: EpubWriter) -> (r: Result<Vec<u8>, ZipError>)
    ensures
        writer_sound(w) ==> (r is Ok <==> zip_finish_accepts(written_entries(w))),
        writer_sound(w) ==> (r matches Ok(bytes) ==> zip_opens(bytes@) && zip_contents(bytes@)
            == written_entries(w).map_values(|e: WrittenEntry| (e.0, e.3)) && (forall|i: int|
            0 <= i < written_entries(w).len() ==> zip_entry_opens(bytes@, i) && zip_entry_reads(
                bytes@,
                i,
            ))),
        r matches Ok(bytes) ==> bytes@ == zip_encoding(written_entries(w)),
{
    Ok(w.inner.finish()?.into_inner())
}

/// Checks bytes for UTF-8 with `std::str::from_utf8`. What is claimed: the
/// text is returned exactly when the bytes are valid UTF-8, and it encodes
/// back to those bytes.
#[verifier::external_body]
pub(crate) fn utf8_text(bytes: &[u8]) -> (r: Option<&str>)
    ensures
        r is Some <==> vstd::utf8::valid_utf8(bytes@),
        r matches Some(text) ==> text.spec_bytes() =~= bytes@,
{
    std::str::from_utf8(bytes).ok()
}

} // verus!
