//! Reading the directory of a ZIP archive.

use vstd::prelude::*;
use vstd::string::*;

use std::io::Cursor;
use zip::ZipArchive;

verus! {

/// `zip::ZipArchive`: an opened archive.
#[verifier::external_type_specification]
#[verifier::external_body]
#[verifier::reject_recursive_types(R)]
pub struct ExZipArchive<R>(ZipArchive<R>);

/// `std::io::Cursor`: bytes in memory, to be read from a position on.
#[verifier::external_type_specification]
#[verifier::external_body]
#[verifier::reject_recursive_types(T)]
pub struct ExCursor<T>(Cursor<T>);

/// What `ZipArchive::new` finds in the bytes of a file: the entries of the archive in the
/// order of its directory, or the text of the error. Of each entry it gives what
/// `ZipArchive::by_index` gives: its name and its size, or the text of the error.
pub uninterp spec fn zip_contents(bytes: Seq<u8>) -> Result<
    Seq<Result<(Seq<char>, u64), Seq<char>>>,
    Seq<char>,
>;

/// The entries that an opened archive holds.
pub uninterp spec fn archive_entries(archive: ZipArchive<Cursor<Vec<u8>>>) -> Seq<
    Result<(Seq<char>, u64), Seq<char>>,
>;

/// An entry of an archive.
pub struct ZipEntry {
    pub is_dir: bool,
    pub name: String,
    pub size: u64,
}

/// Whether an entry name is that of a directory: it ends with a slash or a backslash.
pub open spec fn names_directory(name: Seq<char>) -> bool {
    name.len() > 0 && (name.last() == '/' || name.last() == '\\')
}

/// An entry as an archive gives it, or the text of the error.
pub open spec fn entry_view(entry: Result<ZipEntry, String>) -> Result<
    (Seq<char>, u64),
    Seq<char>,
> {
    match entry {
        Ok(e) => Ok((e.name@, e.size)),
        Err(e) => Err(e@),
    }
}

/// `ZipArchive::new` on bytes in memory: what it finds is a function of the bytes alone.
#[verifier::external_body]
fn open_archive(bytes: Vec<u8>) -> (r: Result<ZipArchive<Cursor<Vec<u8>>>, String>)
    ensures
        match r {
            Ok(archive) => zip_contents(bytes@) == Ok::<_, Seq<char>>(archive_entries(archive)),
            Err(error) => zip_contents(bytes@) == Err::<
                Seq<Result<(Seq<char>, u64), Seq<char>>>,
                _,
            >(error@),
        },
{
    ZipArchive::new(Cursor::new(bytes)).map_err(|error| error.to_string())
}

/// `ZipArchive::len`: how many entries the archive holds.
#[verifier::external_body]
fn archive_len(archive: &ZipArchive<Cursor<Vec<u8>>>) -> (r: usize)
    ensures
        r == archive_entries(*archive).len(),
{
    archive.len()
}

/// `ZipArchive::by_index`: the entry at a position, with its name and its size, or the
/// text of the error. The archive holds the same entries afterwards. An entry is a
/// directory exactly if its name ends with a slash or a backslash.
#[verifier::external_body]
fn archive_entry(archive: &mut ZipArchive<Cursor<Vec<u8>>>, index: usize) -> (r: Result<
    ZipEntry,
    String,
>)
    requires
        index < archive_entries(*old(archive)).len(),
    ensures
        archive_entries(*final(archive)) == archive_entries(*old(archive)),
        entry_view(r) == archive_entries(*old(archive))[index as int],
        r matches Ok(entry) ==> entry.is_dir == names_directory(entry.name@),
{
    match archive.by_index(index) {
        Ok(entry) => Ok(
            ZipEntry { is_dir: entry.is_dir(), name: entry.name().to_string(), size: entry.size() },
        ),
        Err(error) => Err(error.to_string()),
    }
}

/// An archive that is read entry by entry.
pub struct ZipReader {
    archive: ZipArchive<Cursor<Vec<u8>>>,
    next: usize,
}

impl ZipReader {
    /// The entries of the archive.
    pub closed spec fn entries(self) -> Seq<Result<(Seq<char>, u64), Seq<char>>> {
        archive_entries(self.archive)
    }

    /// The position of the entry that comes next.
    pub closed spec fn next(self) -> int {
        self.next as int
    }

    /// Whether the position lies in the archive or at its end.
    pub closed spec fn wf(self) -> bool {
        self.next <= archive_entries(self.archive).len()
    }

    /// What holds of the position of a well-formed reader.
    pub proof fn lemma_position(self)
        requires
            self.wf(),
        ensures
            0 <= self.next() <= self.entries().len(),
    {
    }

    /// Opens the archive that `bytes` hold, or gives the text of the error.
    pub fn open(bytes: Vec<u8>) -> (r: Result<ZipReader, String>)
        ensures
            match r {
                Ok(reader) => {
                    &&& reader.wf()
                    &&& reader.next() == 0
                    &&& zip_contents(bytes@) == Ok::<_, Seq<char>>(reader.entries())
                },
                Err(error) => zip_contents(bytes@) == Err::<
                    Seq<Result<(Seq<char>, u64), Seq<char>>>,
                    _,
                >(error@),
            },
    {
        match open_archive(bytes) {
            Ok(archive) => Ok(ZipReader { archive, next: 0 }),
            Err(error) => Err(error),
        }
    }

    /// The position of the entry that comes next.
    pub fn position(&self) -> (r: usize)
        requires
            self.wf(),
        ensures
            r == self.next(),
    {
        self.next
    }

    /// Whether all entries have been read.
    pub fn at_end(&self) -> (r: bool)
        requires
            self.wf(),
        ensures
            r == (self.next() == self.entries().len()),
    {
        self.next == archive_len(&self.archive)
    }

    /// The entry that comes next, which stays the next one.
    pub fn peek(&mut self) -> (r: Result<ZipEntry, String>)
        requires
            old(self).wf(),
            old(self).next() < old(self).entries().len(),
        ensures
            final(self).wf(),
            final(self).entries() == old(self).entries(),
            final(self).next() == old(self).next(),
            entry_view(r) == old(self).entries()[old(self).next()],
            r matches Ok(entry) ==> entry.is_dir == names_directory(entry.name@),
    {
        archive_entry(&mut self.archive, self.next)
    }

    /// Passes over the next entry.
    pub fn advance(&mut self)
        requires
            old(self).wf(),
            old(self).next() < old(self).entries().len(),
        ensures
            final(self).wf(),
            final(self).entries() == old(self).entries(),
            final(self).next() == old(self).next() + 1,
    {
        let length: usize = archive_len(&self.archive);
        assert(self.next < length);
        self.next = self.next + 1;
    }
}

} // verus!
