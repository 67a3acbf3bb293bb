//! The zip container, held behind trusted wrappers.
//!
//! An archive is modelled as a map from entry name (bytes) to entry
//! contents.  `ArchiveWriter` builds a container in memory; `Archive` opens
//! one from bytes and reads entries back.  The one connection between the two worlds is
//! `zip_entries_of`: what the zip crate reads back from a byte string.
//! `ArchiveWriter::finish` promises that the bytes it returns read back as
//! exactly the entries that were written.

use vstd::prelude::*;

verus! {

/// The entries `w` holds so far: entry name, as bytes, to entry contents.
pub uninterp spec fn writer_entries(w: ArchiveWriter) -> Map<Seq<u8>, Seq<u8>>;

/// The entries `a` can serve: entry name, as bytes, to entry contents.
pub uninterp spec fn archive_entries(a: Archive) -> Map<Seq<u8>, Seq<u8>>;

/// What the zip crate reads back from `bytes`: `None` when they do not open
/// as an archive, otherwise each servable entry's name mapped to its
/// contents.
pub uninterp spec fn zip_entries_of(bytes: Seq<u8>) -> Option<Map<Seq<u8>, Seq<u8>>>;

/// Whether nothing the writer has been asked so far can still make a later
/// operation fail: every entry written fit the format's bounds.
pub uninterp spec fn writer_sound(w: ArchiveWriter) -> bool;

/// Whether every entry the archive's bytes index reads back cleanly.
pub uninterp spec fn zip_clean(bytes: Seq<u8>) -> bool;

/// Whether every entry this opened archive indexes reads back cleanly.
pub uninterp spec fn archive_clean(a: Archive) -> bool;

/// A key the container is promised to take: printable-or-high-free ASCII —
/// which converts to the `&str` the crate wants byte for byte — nonempty
/// and within the format's name-length field.
pub open spec fn key_ok(k: Seq<u8>) -> bool {
    &&& 1 <= k.len() <= 65535
    &&& forall|i: int| 0 <= i < k.len() ==> 0 < #[trigger] k[i] < 128
}

/// The per-entry data bound under which a write cannot trip the format's
/// size limits, with room for incompressible data growing under deflate.
pub open spec fn data_cap() -> int {
    0xF000_0000
}

/// The empty entry map.
pub open spec fn no_entries() -> Map<Seq<u8>, Seq<u8>> {
    Map::empty()
}

/// The empty byte string (what a folder entry holds).
pub open spec fn empty_bytes() -> Seq<u8> {
    Seq::empty()
}

/// An in-memory zip container being written.
#[verifier::external_body]
pub struct ArchiveWriter {
    inner: zip::ZipWriter<std::io::Cursor<Vec<u8>>>,
}

impl ArchiveWriter {
    /// Relies on `zip::ZipWriter::new`: a fresh writer holds no entries
    /// and nothing about it can fail yet.
    #[verifier::external_body]
    pub fn new() -> (out: ArchiveWriter)
        ensures
            writer_entries(out) == no_entries(),
            writer_sound(out),
    {
        ArchiveWriter { inner: zip::ZipWriter::new(std::io::Cursor::new(Vec::new())) }
    }

    /// Relies on `zip::ZipWriter::start_file` and `Write::write_all`: on
    /// success the container gains (exactly) the entry `name` with contents
    /// `data`; the writer itself refuses a `name` already written.  Writing
    /// into memory, a fresh ASCII name within the format's bounds and data
    /// under the size cap cannot fail: the only error paths are a duplicate
    /// or overlong name, a name the crate's `&str` interface cannot take,
    /// and data past the format's plain size field.
    #[verifier::external_body]
    pub fn add_entry(&mut self, name: &Vec<u8>, data: &Vec<u8>) -> (r: Result<(), String>)
        ensures
            r matches Ok(_) ==> writer_entries(*final(self)) == writer_entries(*old(self)).insert(name@, data@),
            (writer_sound(*old(self)) && key_ok(name@) && data@.len() <= data_cap()
                && !writer_entries(*old(self)).contains_key(name@)) ==> (r is Ok
                && writer_sound(*final(self))),
    {
        let name_str = match String::from_utf8(name.clone()) {
            Ok(s) => s,
            Err(_) => {
                return Err("entry name is not valid UTF-8".to_string());
            }
        };
        let options = zip::write::FileOptions::<()>::default()
            .compression_method(zip::CompressionMethod::Deflated);
        self.inner.start_file(name_str, options).map_err(|e| e.to_string())?;
        std::io::Write::write_all(&mut self.inner, data).map_err(|e| e.to_string())?;
        Ok(())
    }

    /// Relies on `zip::ZipWriter::add_directory`: on success the container
    /// gains the empty entry `name`.  The trailing `/` is required so that
    /// the crate keeps the name as given; as for `add_entry`, a fresh ASCII
    /// name within bounds cannot fail.
    #[verifier::external_body]
    pub fn add_folder(&mut self, name: &Vec<u8>) -> (r: Result<(), String>)
        requires
            name@.len() > 0,
            name@[name@.len() - 1] == '/' as u8,
        ensures
            r matches Ok(_) ==> writer_entries(*final(self)) == writer_entries(*old(self)).insert(name@, empty_bytes()),
            (writer_sound(*old(self)) && key_ok(name@)
                && !writer_entries(*old(self)).contains_key(name@)) ==> (r is Ok
                && writer_sound(*final(self))),
    {
        let name_str = match String::from_utf8(name.clone()) {
            Ok(s) => s,
            Err(_) => {
                return Err("entry name is not valid UTF-8".to_string());
            }
        };
        let options = zip::write::FileOptions::<()>::default()
            .compression_method(zip::CompressionMethod::Deflated);
        self.inner.add_directory(name_str, options).map_err(|e| e.to_string())
    }

    /// Relies on `zip::ZipWriter::finish` and on `zip::ZipArchive` reading
    /// back what the writer wrote: the returned bytes open as an archive
    /// that serves exactly the entries written, every one of them cleanly.
    /// Writing the central directory into memory cannot fail — entry
    /// counts and offsets past the plain format's fields get the extended
    /// form automatically — so a sound writer always finishes.
    #[verifier::external_body]
    pub fn finish(self) -> (r: Result<Vec<u8>, String>)
        ensures
            r matches Ok(b) ==> zip_entries_of(b@) == Some(writer_entries(self)),
            writer_sound(self) ==> r is Ok,
            r matches Ok(b) ==> (writer_sound(self) ==> zip_clean(b@)),
    {
        let mut inner = self.inner;
        match inner.finish() {
            Ok(cursor) => Ok(cursor.into_inner()),
            Err(e) => Err(e.to_string()),
        }
    }
}

/// An opened in-memory zip container.
#[verifier::external_body]
pub struct Archive {
    inner: zip::ZipArchive<std::io::Cursor<Vec<u8>>>,
}

impl Archive {
    /// Relies on `zip::ZipArchive::new`: it errs exactly when the bytes do
    /// not open as an archive, and it carries the bytes' cleanliness over
    /// to the opened archive.
    #[verifier::external_body]
    pub fn open(bytes: Vec<u8>) -> (r: Result<Archive, String>)
        ensures
            r matches Ok(a) ==> zip_entries_of(bytes@) == Some(archive_entries(a)),
            r matches Ok(a) ==> (zip_clean(bytes@) ==> archive_clean(a)),
            r matches Err(_) ==> zip_entries_of(bytes@) is None,
    {
        match zip::ZipArchive::new(std::io::Cursor::new(bytes)) {
            Ok(inner) => Ok(Archive { inner }),
            Err(e) => Err(e.to_string()),
        }
    }

    /// Relies on `zip::ZipArchive::by_name` and `Read::read_to_end`:
    /// `Ok(Some)` returns the entry's contents, `Ok(None)` comes exactly
    /// when the archive has no servable entry of that name, and reading
    /// changes nothing.  On a clean archive an ASCII name cannot fail: its
    /// lookup either misses or reads back cleanly.
    #[verifier::external_body]
    pub fn read_entry(&mut self, name: &Vec<u8>) -> (r: Result<Option<Vec<u8>>, String>)
        ensures
            archive_entries(*final(self)) == archive_entries(*old(self)),
            archive_clean(*final(self)) == archive_clean(*old(self)),
            r matches Ok(o) ==> match o {
                Some(d) => archive_entries(*old(self)).contains_key(name@)
                    && d@ == archive_entries(*old(self))[name@],
                None => !archive_entries(*old(self)).contains_key(name@),
            },
            (archive_clean(*old(self)) && key_ok(name@)) ==> r is Ok,
    {
        let name_str = match String::from_utf8(name.clone()) {
            Ok(s) => s,
            Err(_) => {
                return Err("entry name is not valid UTF-8".to_string());
            }
        };
        match self.inner.by_name(&name_str) {
            Ok(mut f) => {
                let mut buf: Vec<u8> = Vec::new();
                std::io::Read::read_to_end(&mut f, &mut buf).map_err(|e| e.to_string())?;
                Ok(Some(buf))
            }
            Err(zip::result::ZipError::FileNotFound) => Ok(None),
            Err(e) => Err(e.to_string()),
        }
    }
}

} // verus!
