//! Finding one's way in an archive file: its header, manifest, chunk index and
//! table of contents. The bytes are read by the caller.

use std::collections::HashMap;
use vstd::prelude::*;
use crate::codec;
use crate::codec::{decode_toc, ArchiveHash};
use crate::error::SpriteShrinkError;
use crate::fetch;
use crate::parsing;
use crate::parsing::{
    assemble_toc, parse_file_chunk_index, parse_file_header, parse_file_metadata,
};
use crate::structs;
use crate::structs::{ChunkLocation, FileHeader, FileManifestParent, SSMCTocEntry};

verus! {

/// What can go wrong when looking into an archive file.
#[derive(Debug)]
pub enum CliError {
    InternalError(String),
    Io(std::io::Error),
    Library(SpriteShrinkError),
}

/// Whether any part of the file can be asked for.
pub open spec fn can_read<R: Fn(u64, usize) -> Result<Vec<u8>, CliError>>(read: &R) -> bool {
    forall|offset: u64, length: usize| call_requires(*read, (offset, length))
}

/// Whether reading a part of the file may give the given bytes.
pub open spec fn may_read<R: Fn(u64, usize) -> Result<Vec<u8>, CliError>>(
    read: &R,
    offset: u64,
    length: usize,
    bytes: Vec<u8>,
) -> bool {
    call_ensures(*read, (offset, length), Ok::<Vec<u8>, CliError>(bytes))
}

/// Whether reading a part of the file may fail with the given error.
pub open spec fn may_fail<R: Fn(u64, usize) -> Result<Vec<u8>, CliError>>(
    read: &R,
    offset: u64,
    length: usize,
    e: CliError,
) -> bool {
    call_ensures(*read, (offset, length), Err::<Vec<u8>, CliError>(e))
}

/// What getting the header yields: it stands in the first 28 bytes.
pub open spec fn file_header_outcome<R: Fn(u64, usize) -> Result<Vec<u8>, CliError>>(
    read: &R,
    r: Result<FileHeader, CliError>,
) -> bool {
    match r {
        Ok(header) => exists|bytes: Vec<u8>| #[trigger]
            may_read(read, 0, 28, bytes) && parsing::header_outcome(bytes@, Ok(header)),
        Err(e) => may_fail(read, 0, 28, e) || exists|bytes: Vec<u8>| #[trigger]
            may_read(read, 0, 28, bytes) && e is Library && parsing::header_outcome(
                bytes@,
                Err(e->Library_0),
            ),
    }
}

/// Gets the header of an archive.
pub fn get_file_header<R: Fn(u64, usize) -> Result<Vec<u8>, CliError>>(read: &R) -> (r: Result<
    FileHeader,
    CliError,
>)
    requires
        can_read(read),
    ensures
        file_header_outcome(read, r),
{
    let header_size: usize = FileHeader::HEADER_SIZE as usize;
    let byte_header_data = match read(0, header_size) {
        Ok(bytes) => bytes,
        Err(e) => {
            assert(may_fail(read, 0, 28, e));
            return Err(e);
        },
    };
    assert(may_read(read, 0, 28, byte_header_data));
    match parse_file_header(byte_header_data.as_slice()) {
        Ok(header) => Ok(header),
        Err(e) => {
            let out = CliError::Library(e);
            assert(out->Library_0 == e);
            Err(out)
        },
    }
}

/// Gets the manifests of an archive from the given part of it.
pub fn get_file_manifest<H: ArchiveHash, R: Fn(u64, usize) -> Result<Vec<u8>, CliError>>(
    read: &R,
    man_offset: u64,
    man_length: usize,
) -> (r: Result<Vec<FileManifestParent<H>>, CliError>)
    requires
        can_read(read),
    ensures
        file_manifest_outcome(read, man_offset, man_length, r),
{
    let bin_vec_manifest = match read(man_offset, man_length) {
        Ok(bytes) => bytes,
        Err(e) => {
            assert(may_fail(read, man_offset, man_length, e));
            return Err(e);
        },
    };
    assert(may_read(read, man_offset, man_length, bin_vec_manifest));
    match parse_file_metadata(bin_vec_manifest.as_slice()) {
        Ok(manifests) => Ok(manifests),
        Err(e) => {
            let out = CliError::Library(e);
            assert(out->Library_0 == e);
            Err(out)
        },
    }
}

/// What getting the manifests yields.
pub open spec fn file_manifest_outcome<
    H: ArchiveHash,
    R: Fn(u64, usize) -> Result<Vec<u8>, CliError>,
>(
    read: &R,
    offset: u64,
    length: usize,
    r: Result<Vec<FileManifestParent<H>>, CliError>,
) -> bool {
    match r {
        Ok(manifests) => exists|bytes: Vec<u8>| #[trigger]
            may_read(read, offset, length, bytes) && parsing::manifest_outcome(
                bytes@,
                Ok(manifests),
            ),
        Err(e) => may_fail(read, offset, length, e) || exists|bytes: Vec<u8>| #[trigger]
            may_read(read, offset, length, bytes) && e is Library && parsing::manifest_outcome::<H>(
                bytes@,
                Err(e->Library_0),
            ),
    }
}

/// The highest index of a file in an archive of so many files, which is their
/// number; there is none beyond 255.
pub fn max_rom_index(file_count: u32) -> (r: Result<u8, CliError>)
    ensures
        index_limit(file_count, r),
{
    if file_count > 255 {
        return Err(
            CliError::InternalError(
                "The number of files in the archive exceeds the supported limit of255.".to_string(),
            ),
        );
    }
    Ok(file_count as u8)
}

/// What the highest index of a file in an archive is.
pub open spec fn index_limit(file_count: u32, r: Result<u8, CliError>) -> bool {
    if file_count <= 255 {
        r matches Ok(n) && n == file_count
    } else {
        r matches Err(CliError::InternalError(m)) && m@
            == "The number of files in the archive exceeds the supported limit of255."@
    }
}

/// What getting the highest index of a file yields.
pub open spec fn max_rom_index_outcome<R: Fn(u64, usize) -> Result<Vec<u8>, CliError>>(
    read: &R,
    r: Result<u8, CliError>,
) -> bool {
    ||| exists|header: FileHeader| #[trigger]
        file_header_outcome(read, Ok(header)) && index_limit(header.file_count, r)
    ||| r matches Err(e) && file_header_outcome(read, Err(e))
}

/// Gets the highest index of a file in an archive.
pub fn get_max_rom_index<R: Fn(u64, usize) -> Result<Vec<u8>, CliError>>(read: &R) -> (r: Result<
    u8,
    CliError,
>)
    requires
        can_read(read),
    ensures
        max_rom_index_outcome(read, r),
{
    match get_file_header(read) {
        Ok(header) => {
            assert(file_header_outcome(read, Ok(header)));
            max_rom_index(header.file_count)
        },
        Err(e) => Err(e),
    }
}

/// What getting the chunk index yields.
pub open spec fn chunk_index_outcome<
    H: ArchiveHash,
    R: Fn(u64, usize) -> Result<Vec<u8>, CliError>,
>(
    read: &R,
    offset: u64,
    length: usize,
    r: Result<HashMap<H, ChunkLocation>, CliError>,
) -> bool {
    match r {
        Ok(map) => exists|bytes: Vec<u8>| #[trigger]
            may_read(read, offset, length, bytes) && parsing::index_outcome(bytes@, Ok(map)),
        Err(e) => may_fail(read, offset, length, e) || exists|bytes: Vec<u8>| #[trigger]
            may_read(read, offset, length, bytes) && e is Library && parsing::index_outcome::<H>(
                bytes@,
                Err(e->Library_0),
            ),
    }
}

/// Gets the chunk index of an archive from the given part of it.
pub fn get_chunk_index<H: ArchiveHash, R: Fn(u64, usize) -> Result<Vec<u8>, CliError>>(
    read: &R,
    chunk_index_offset: u64,
    chunk_index_length: u64,
) -> (r: Result<HashMap<H, ChunkLocation>, CliError>)
    requires
        can_read(read),
        chunk_index_length <= usize::MAX,
    ensures
        chunk_index_outcome(read, chunk_index_offset, chunk_index_length as usize, r),
{
    let bin_vec_chunk_index = match read(chunk_index_offset, chunk_index_length as usize) {
        Ok(bytes) => bytes,
        Err(e) => {
            assert(may_fail(read, chunk_index_offset, chunk_index_length as usize, e));
            return Err(e);
        },
    };
    assert(may_read(read, chunk_index_offset, chunk_index_length as usize, bin_vec_chunk_index));
    match parse_file_chunk_index(bin_vec_chunk_index.as_slice()) {
        Ok(map) => Ok(map),
        Err(e) => {
            let out = CliError::Library(e);
            assert(out->Library_0 == e);
            Err(out)
        },
    }
}

/// Whether a text is the complaint that a table of contents could not be
/// decoded, with the decoder's own words behind it.
pub open spec fn is_toc_complaint(m: Seq<char>) -> bool {
    exists|text: String| #[trigger]
        parsing::is_decoding_text(text) && m == "Failed to decode TOC: "@ + text@
}

/// What decoding a table of contents yields.
pub open spec fn toc_outcome(bytes: Seq<u8>, r: Result<Vec<SSMCTocEntry>, CliError>) -> bool {
    match codec::toc_in(bytes) {
        Some(toc) => r matches Ok(v) && structs::toc_views(v@) == toc,
        None => r matches Err(CliError::InternalError(m)) && is_toc_complaint(m@),
    }
}

/// What getting the table of contents yields.
pub open spec fn get_toc_outcome<R: Fn(u64, usize) -> Result<Vec<u8>, CliError>>(
    read: &R,
    offset: u64,
    length: usize,
    r: Result<Vec<SSMCTocEntry>, CliError>,
) -> bool {
    ||| exists|bytes: Vec<u8>| #[trigger]
        may_read(read, offset, length, bytes) && toc_outcome(bytes@, r)
    ||| r matches Err(e) && may_fail(read, offset, length, e)
}

/// Gets the table of contents of an archive from the given part of it.
pub fn get_toc<R: Fn(u64, usize) -> Result<Vec<u8>, CliError>>(
    read: &R,
    toc_offset: u32,
    toc_length: usize,
) -> (r: Result<Vec<SSMCTocEntry>, CliError>)
    requires
        can_read(read),
    ensures
        get_toc_outcome(read, toc_offset as u64, toc_length, r),
{
    let enc_toc_data = match read(toc_offset as u64, toc_length) {
        Ok(bytes) => bytes,
        Err(e) => {
            assert(may_fail(read, toc_offset as u64, toc_length, e));
            return Err(e);
        },
    };
    assert(may_read(read, toc_offset as u64, toc_length, enc_toc_data));
    match decode_toc(enc_toc_data.as_slice()) {
        Ok(raw) => Ok(assemble_toc(raw)),
        Err(e) => {
            let text = e.to_string();
            let mut m = String::new();
            m.push_str("Failed to decode TOC: ");
            m.push_str(text.as_str());
            proof {
                assert(fetch::has_text(e, text));
                assert(parsing::is_decoding_text(text));
                assert(m@ =~= "Failed to decode TOC: "@ + text@);
            }
            Err(CliError::InternalError(m))
        },
    }
}

/// An archive of up to 255 files has its number of files as the highest index, and
/// one of more has none.
pub proof fn law_highest_index_is_the_number_of_files(file_count: u32, r: Result<u8, CliError>)
    requires
        index_limit(file_count, r),
    ensures
        r is Ok <==> file_count < 256,
        r matches Ok(n) ==> n as int == file_count,
{
}

/// The header of an archive is what its first 28 bytes spell out.
pub proof fn law_header_stands_in_front<R: Fn(u64, usize) -> Result<Vec<u8>, CliError>>(
    read: &R,
    header: FileHeader,
)
    requires
        file_header_outcome(read, Ok(header)),
    ensures
        exists|bytes: Vec<u8>| #[trigger]
            may_read(read, 0, 28, bytes) && parsing::is_header(bytes@, header),
{
    let bytes = choose|bytes: Vec<u8>| #[trigger]
        may_read(read, 0, 28, bytes) && parsing::header_outcome(bytes@, Ok(header));
    assert(parsing::is_header(bytes@, header));
}

} // verus!
