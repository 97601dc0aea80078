//! A zip archive that is built in memory.
//!
//! Compression and the container format are the `zip` crate's. What this
//! module states of it, without proof, is which entries an archive holds
//! after each call.
use std::io::Write;
use vstd::prelude::*;
use vstd::utf8::encode_utf8;

verus! {

/// An entry of an archive: its name, and its uncompressed contents.
pub type Entry = (Seq<char>, Seq<u8>);

#[verifier::external_type_specification]
#[verifier::external_body]
pub struct ExZipError(zip::result::ZipError);

#[verifier::external_type_specification]
#[verifier::external_body]
pub struct ExIoError(std::io::Error);

/// The archive under construction: a `zip::ZipWriter` over a growing buffer.
#[verifier::external_body]
pub struct Archive {
    writer: zip::ZipWriter<std::io::Cursor<Vec<u8>>>,
}

/// The entries that have been started in `archive`, in order, each with the
/// bytes that have been written to it.
pub uninterp spec fn archive_entries(archive: Archive) -> Seq<(Seq<char>, Seq<u8>)>;

/// The entries that `zip::ZipArchive` reads from `bytes`, in the order of the
/// central directory.
pub uninterp spec fn zip_contents(bytes: Seq<u8>) -> Seq<(Seq<char>, Seq<u8>)>;

/// Whether `name` fits the 16-bit length field of a zip entry.
pub open spec fn name_fits(name: Seq<char>) -> bool {
    encode_utf8(name).len() <= 0xffff
}

/// As many bytes as an entry can hold and surely stay, compressed, below the largest
/// number that a size field of the format can tell. Contents that cannot be
/// compressed grow by a small part, for which room is left.
pub const SIZE_LIMIT: u64 = 0xe000_0000;

/// Whether no entry holds more than `SIZE_LIMIT` bytes.
pub open spec fn short(entries: Seq<Entry>) -> bool {
    forall|i: int| 0 <= i < entries.len() ==> (#[trigger] entries[i]).1.len() <= SIZE_LIMIT
}

/// The number of bytes in names and contents.
pub open spec fn total_size(entries: Seq<Entry>) -> nat
    decreases entries.len(),
{
    if entries.len() == 0 {
        0
    } else {
        total_size(entries.drop_last()) + encode_utf8(entries.last().0).len()
            + entries.last().1.len()
    }
}

/// Whether number and size of the entries are such that what follows them begins
/// below the largest offset that a field of the format can tell.
pub open spec fn moderate(entries: Seq<Entry>) -> bool {
    entries.len() < 0xffff && total_size(entries) <= SIZE_LIMIT
}

/// Whether no entry needs a longer field for its offset while its size comes near the
/// largest number that a field of the format can tell.
pub open spec fn sizes_told(entries: Seq<Entry>) -> bool {
    forall|i: int|
        0 <= i < entries.len() ==> (#[trigger] entries[i]).1.len() <= SIZE_LIMIT || moderate(
            entries.take(i),
        )
}

/// Whether the end of the directory, which is the last name, cannot be taken for the
/// record that announces longer fields. That record has 20 bytes, and begins with
/// `P`, `K`, 6 and 7. These can be part of the name; and before a name of 16 bytes
/// they can be the offset of its entry, which is that small, at the end of a large
/// archive, only where the number of entries or the last one makes it large.
pub open spec fn plain_end(entries: Seq<Entry>) -> bool {
    entries.len() > 0 ==> {
        let (name, data) = entries.last();
        &&& !name.contains('\u{7}')
        &&& entries.len() == 0xffff || data.len() > SIZE_LIMIT ==> encode_utf8(name).len() != 16
    }
}

/// Whether an archive of `entries` is read back as it was written.
pub open spec fn readable(entries: Seq<Entry>) -> bool {
    moderate(entries) || (sizes_told(entries) && plain_end(entries))
}

/// Whether some entry is called `name`.
pub open spec fn has_entry(entries: Seq<Entry>, name: Seq<char>) -> bool {
    exists|i: int| 0 <= i < entries.len() && (#[trigger] entries[i]).0 == name
}

/// `entries` with `data` appended to the last one.
pub open spec fn extend_last(entries: Seq<Entry>, data: Seq<u8>) -> Seq<Entry> {
    entries.update(entries.len() - 1, (entries.last().0, entries.last().1 + data))
}

impl Archive {
    /// `zip::ZipWriter::new`: the archive starts without entries.
    #[verifier::external_body]
    pub(crate) fn new() -> (archive: Archive)
        ensures
            archive_entries(archive) == Seq::<Entry>::empty(),
    {
        Archive { writer: zip::ZipWriter::new(std::io::Cursor::new(Vec::new())) }
    }

    /// `zip::ZipWriter::start_file`, with deflate compression: on success there
    /// is one more entry, called `name` and empty. A name that an entry already
    /// has is refused; otherwise the call fails only where the entry before has
    /// grown, compressed, beyond what its size field holds, which it cannot from
    /// `SIZE_LIMIT` bytes. The call panics on a name too long for its length
    /// field. After a failure the archive is given up.
    #[verifier::external_body]
    pub(crate) fn start_file(self, name: &str) -> (r: Result<Archive, zip::result::ZipError>)
        requires
            name_fits(name@),
        ensures
            r matches Ok(archive) ==> archive_entries(archive) == archive_entries(self).push(
                (name@, Seq::<u8>::empty()),
            ),
            has_entry(archive_entries(self), name@) ==> r is Err,
            short(archive_entries(self)) && !has_entry(archive_entries(self), name@) ==> r is Ok,
    {
        let options = zip::write::SimpleFileOptions::default()
            .compression_method(zip::CompressionMethod::Deflated);
        let mut writer = self.writer;
        match writer.start_file(name, options) {
            Ok(()) => Ok(Archive { writer }),
            Err(e) => Err(e),
        }
    }

    /// `std::io::Write::write_all` on the `zip::ZipWriter`: on success all of
    /// `data` has gone to the entry started last. The call fails only where the
    /// entry would hold more bytes than its size field can tell. After a failure
    /// the archive is given up.
    #[verifier::external_body]
    pub(crate) fn write_all(self, data: &[u8]) -> (r: Result<Archive, std::io::Error>)
        requires
            archive_entries(self).len() > 0,
        ensures
            r matches Ok(archive) ==> archive_entries(archive) == extend_last(
                archive_entries(self),
                data@,
            ),
            archive_entries(self).last().1.len() + data@.len() <= SIZE_LIMIT ==> r is Ok,
    {
        let mut writer = self.writer;
        match writer.write_all(data) {
            Ok(()) => Ok(Archive { writer }),
            Err(e) => Err(e),
        }
    }

    /// `zip::ZipWriter::finish`: it fails only where the last entry has grown,
    /// compressed, beyond what its size field holds. From the bytes `zip::ZipArchive`
    /// reads back exactly the entries that were written, whatever their number and
    /// their size in all. Two things are left out. An entry whose size is the largest
    /// number that the field can tell cannot be found again where its offset needs a
    /// longer field, so none beyond `SIZE_LIMIT` may stand so far behind. And where
    /// number or offset of the directory is the largest number that its field can
    /// tell, the writer adds no record of longer fields, but the reader tries to read
    /// one before it falls back, and can be misled by the end of the last name.
    #[verifier::external_body]
    pub(crate) fn finish(self) -> (r: Result<Vec<u8>, zip::result::ZipError>)
        ensures
            readable(archive_entries(self)) ==> (r matches Ok(bytes) ==> zip_contents(bytes@)
                == archive_entries(self)),
            short(archive_entries(self)) ==> r is Ok,
    {
        match self.writer.finish() {
            Ok(buffer) => Ok(buffer.into_inner()),
            Err(e) => Err(e),
        }
    }
}

} // verus!
