//! In-memory archive readers.
//!
//! An archive is a container of named byte entries with random-access reading.
//! The library opens archives from bytes held in memory — top-level archive
//! files are read by the embedder, nested archives are extracted from their
//! parent — so what an archive contains, and what a named entry holds, are
//! functions of the archive bytes alone.
//!
//! Only the ZIP container (and so CBZ) is decoded: the multi-format decoding
//! library behind RAR, CBR, TAR and 7Z is not available to this crate.  Those
//! formats are still recognized as archives by name (see [`crate::sniff`]),
//! but mounting one fails with a decode error, which the embedder reports as
//! not found.

use vstd::prelude::*;

verus! {

#[verifier::external_type_specification]
#[verifier::external_body]
#[verifier::reject_recursive_types(R)]
pub struct ExZipArchive<R>(zip::ZipArchive<R>);

#[verifier::external_type_specification]
#[verifier::external_body]
#[verifier::reject_recursive_types(T)]
pub struct ExCursor<T>(std::io::Cursor<T>);

/// An open random-access reader over an in-memory archive.
pub type ArchiveReader = zip::ZipArchive<std::io::Cursor<Vec<u8>>>;

/// The bytes a reader was opened from.
pub uninterp spec fn reader_src(r: &zip::ZipArchive<std::io::Cursor<Vec<u8>>>) -> Seq<u8>;

/// The raw entry names of the archive the bytes encode, in index order, or
/// nothing when the bytes do not parse as an archive.
pub uninterp spec fn zip_entries(bytes: Seq<u8>) -> Option<Seq<Seq<u8>>>;

/// The uncompressed contents of the named entry of the archive the bytes
/// encode, or nothing when there is no such entry or it cannot be decoded.
pub uninterp spec fn zip_entry_data(bytes: Seq<u8>, name: Seq<u8>) -> Option<Seq<u8>>;

pub open spec fn names_view(s: Seq<Vec<u8>>) -> Seq<Seq<u8>> {
    s.map_values(|v: Vec<u8>| v@)
}

/// Relies on zip::ZipArchive::new over an in-memory cursor and on its
/// file_names iterator: whether bytes parse as an archive, and the entry
/// names, are functions of the bytes alone.
#[verifier::external_body]
pub fn open_archive(bytes: &Vec<u8>) -> (r: Option<(ArchiveReader, Vec<Vec<u8>>)>)
    ensures
        r is Some <==> zip_entries(bytes@) is Some,
        r is Some ==> reader_src(&r->Some_0.0) == bytes@ && names_view(r->Some_0.1@) == zip_entries(
            bytes@,
        )->Some_0,
{
    match zip::ZipArchive::new(std::io::Cursor::new(bytes.clone())) {
        Err(_) => None,
        Ok(za) => {
            let names: Vec<Vec<u8>> = za.file_names().map(|n| n.as_bytes().to_vec()).collect();
            Some((za, names))
        },
    }
}

/// Relies on zip::ZipArchive::by_name and std::io::Read::read_to_end: the
/// uncompressed bytes of a named entry of an in-memory archive are a function
/// of the archive bytes and the raw entry name alone, and reading an entry
/// does not change what the reader was opened from.
#[verifier::external_body]
pub fn read_entry(r: &mut ArchiveReader, name: &Vec<u8>) -> (res: Option<Vec<u8>>)
    ensures
        reader_src(final(r)) == reader_src(old(r)),
        res is Some <==> zip_entry_data(reader_src(old(r)), name@) is Some,
        res is Some ==> res->Some_0@ == zip_entry_data(reader_src(old(r)), name@)->Some_0,
{
    let n = match core::str::from_utf8(name) {
        Ok(n) => n,
        Err(_) => return None,
    };
    let mut f = match r.by_name(n) {
        Ok(f) => f,
        Err(_) => return None,
    };
    let mut buf: Vec<u8> = Vec::new();
    match std::io::Read::read_to_end(&mut f, &mut buf) {
        Ok(_) => Some(buf),
        Err(_) => None,
    }
}

} // verus!
