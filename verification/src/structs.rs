//! The plain data of an archive: files, chunks, manifests, indices and headers.

use std::collections::HashMap;
use vstd::prelude::*;

verus! {

/// A file that has been read into memory.
#[derive(Clone, Debug, PartialEq, Eq)]
pub struct FileData {
    pub file_name: String,
    pub file_data: Vec<u8>,
}

/// A stretch of a file, found by its content.
#[derive(Clone, Copy, Debug, PartialEq, Eq, Structural)]
pub struct Chunk {
    pub hash: u64,
    pub offset: usize,
    pub length: usize,
}

/// A file cut into chunks, with the digest of the whole.
#[derive(Clone, Debug, PartialEq, Eq)]
pub struct ProcessedFileData {
    pub file_name: String,
    pub veri_hash: [u8; 64],
    pub chunks: Vec<Chunk>,
    pub file_data: Vec<u8>,
}

/// Where a chunk stands in its file.
#[derive(Clone, Copy, Debug, PartialEq, Eq)]
pub struct SSAChunkMeta<H> {
    pub hash: H,
    pub offset: u64,
    pub length: u32,
}

/// The chunks that a file is made of.
#[derive(Clone, Debug, PartialEq, Eq)]
pub struct FileManifestParent<H> {
    pub chunk_count: u64,
    pub chunk_metadata: Vec<SSAChunkMeta<H>>,
}

/// The content of a manifest.
pub struct ManifestView<H> {
    pub chunk_count: u64,
    pub chunk_metadata: Seq<SSAChunkMeta<H>>,
}

impl<H> View for FileManifestParent<H> {
    type V = ManifestView<H>;

    open spec fn view(&self) -> ManifestView<H> {
        ManifestView { chunk_count: self.chunk_count, chunk_metadata: self.chunk_metadata@ }
    }
}

/// The contents of a list of manifests.
pub open spec fn manifest_views<H>(manifests: Seq<FileManifestParent<H>>) -> Seq<ManifestView<H>> {
    manifests.map_values(|m: FileManifestParent<H>| m@)
}

/// Where a chunk stands in the data section of an archive.
#[derive(Clone, Copy, Debug, PartialEq, Eq, Structural)]
pub struct ChunkLocation {
    pub offset: u64,
    pub compressed_length: u32,
}

/// The part of a chunk that a read request takes.
#[derive(Clone, Copy, Debug, PartialEq, Eq)]
pub struct SeekMetadata<H> {
    pub hash: H,
    pub start_offset: u64,
    pub end_offset: u64,
}

impl<H> SeekMetadata<H> {
    /// The bytes `start_offset..end_offset` of the chunk with the given hash.
    pub fn new(hash: H, start_offset: u64, end_offset: u64) -> (m: SeekMetadata<H>)
        ensures
            m == (SeekMetadata { hash, start_offset, end_offset }),
    {
        SeekMetadata { hash, start_offset, end_offset }
    }
}

/// An entry of an archive's table of contents.
#[derive(Clone, Debug, PartialEq, Eq)]
pub struct SSMCTocEntry {
    pub filename: String,
    pub uncompressed_size: u64,
}

/// The content of a table of contents: names and sizes.
pub open spec fn toc_views(toc: Seq<SSMCTocEntry>) -> Seq<(Seq<char>, u64)> {
    toc.map_values(|e: SSMCTocEntry| (e.filename@, e.uncompressed_size))
}

/// What an archive is assembled from.
#[derive(Clone, Debug)]
pub struct SerializedData<H> {
    pub ser_file_manifest: Vec<FileManifestParent<H>>,
    pub archive_toc: Vec<SSMCTocEntry>,
    pub chunk_index: HashMap<H, ChunkLocation>,
    pub sorted_hashes: Vec<H>,
}

/// The compressed part of an archive, apart from the chunks themselves.
#[derive(Clone, Debug, PartialEq, Eq)]
pub struct CompressionResult {
    pub dictionary: Vec<u8>,
    pub dictionary_size: u64,
    pub enc_chunk_index: Vec<u8>,
    pub enc_chunk_index_size: u64,
}

/// How far the assembly of an archive has come.
#[derive(Clone, Copy, Debug, PartialEq, Eq, Structural)]
pub enum Progress {
    GeneratingDictionary,
    DictionaryDone,
    Compressing { total_chunks: u64 },
    ChunkCompressed,
    Finalizing,
}

/// A section of an archive.
#[derive(Clone, Copy, Debug, PartialEq, Eq, Structural)]
pub struct FileRegion {
    pub offset: u64,
    pub length: u64,
}

/// The header that opens every archive.
#[derive(Clone, Copy, Debug, PartialEq, Eq)]
pub struct FileHeader {
    pub magic_num: [u8; 8],
    pub file_version: u32,
    pub file_count: u32,
    pub algorithm: u16,
    pub hash_type: u8,
    pub format_id: u8,
    pub toc_offset: u32,
    pub toc_length: u32,
}

/// Where the sections of a single-file archive stand.
#[derive(Clone, Copy, Debug, PartialEq, Eq, Structural)]
pub struct SSMCFormatData {
    pub enc_manifest: FileRegion,
    pub data_dictionary: FileRegion,
    pub enc_chunk_index: FileRegion,
    pub data_offset: u64,
}

} // verus!
