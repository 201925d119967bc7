//! The binary encoding of manifests, chunk indices and tables of contents.

use vstd::prelude::*;
use crate::hashing::Hashable;
use crate::structs;
use crate::structs::{ChunkLocation, FileManifestParent, ManifestView, SSAChunkMeta};

verus! {

/// Why a byte string could not be decoded.
#[verifier::external_type_specification]
#[verifier::external_body]
pub struct ExBitcodeError(bitcode::Error);

/// The list of manifests with 64-bit hashes that a byte string encodes.
pub uninterp spec fn manifests_64(bytes: Seq<u8>) -> Option<Seq<(u64, Seq<(u64, u64, u32)>)>>;

/// The list of manifests with 128-bit hashes that a byte string encodes.
pub uninterp spec fn manifests_128(bytes: Seq<u8>) -> Option<Seq<(u64, Seq<(u128, u64, u32)>)>>;

/// The chunk index with 64-bit hashes that a byte string encodes.
pub uninterp spec fn index_64(bytes: Seq<u8>) -> Option<Seq<(u64, (u64, u32))>>;

/// The chunk index with 128-bit hashes that a byte string encodes.
pub uninterp spec fn index_128(bytes: Seq<u8>) -> Option<Seq<(u128, (u64, u32))>>;

/// The table of contents that a byte string encodes.
pub uninterp spec fn toc_in(bytes: Seq<u8>) -> Option<Seq<(Seq<char>, u64)>>;

/// The encoding of a chunk index with 64-bit hashes.
pub uninterp spec fn index_bytes_64(entries: Seq<(u64, (u64, u32))>) -> Seq<u8>;

/// The encoding of a chunk index with 128-bit hashes.
pub uninterp spec fn index_bytes_128(entries: Seq<(u128, (u64, u32))>) -> Seq<u8>;

/// Manifests as decoded, with the chunk lists taken as sequences.
pub open spec fn manifest_parts<H>(raw: Seq<(u64, Vec<(H, u64, u32)>)>) -> Seq<
    (u64, Seq<(H, u64, u32)>),
> {
    raw.map_values(|m: (u64, Vec<(H, u64, u32)>)| (m.0, m.1@))
}

/// Entries of a table of contents as decoded, with the names taken as
/// sequences.
pub open spec fn toc_parts(raw: Seq<(String, u64)>) -> Seq<(Seq<char>, u64)> {
    raw.map_values(|e: (String, u64)| (e.0@, e.1))
}

/// `bitcode::decode` at a list of manifests with 64-bit hashes: its result is a
/// function of the bytes.
#[verifier::external_body]
fn decode_manifests_64(bytes: &[u8]) -> (r: Result<
    Vec<(u64, Vec<(u64, u64, u32)>)>,
    bitcode::Error,
>)
    ensures
        match r {
            Ok(raw) => manifests_64(bytes@) == Some(manifest_parts(raw@)),
            Err(_) => manifests_64(bytes@) is None,
        },
{
    bitcode::decode(bytes)
}

/// `bitcode::decode` at a list of manifests with 128-bit hashes: its result is a
/// function of the bytes.
#[verifier::external_body]
fn decode_manifests_128(bytes: &[u8]) -> (r: Result<
    Vec<(u64, Vec<(u128, u64, u32)>)>,
    bitcode::Error,
>)
    ensures
        match r {
            Ok(raw) => manifests_128(bytes@) == Some(manifest_parts(raw@)),
            Err(_) => manifests_128(bytes@) is None,
        },
{
    bitcode::decode(bytes)
}

/// `bitcode::decode` at a chunk index with 64-bit hashes: its result is a
/// function of the bytes.
#[verifier::external_body]
fn decode_index_64(bytes: &[u8]) -> (r: Result<Vec<(u64, (u64, u32))>, bitcode::Error>)
    ensures
        match r {
            Ok(raw) => index_64(bytes@) == Some(raw@),
            Err(_) => index_64(bytes@) is None,
        },
{
    bitcode::decode(bytes)
}

/// `bitcode::decode` at a chunk index with 128-bit hashes: its result is a
/// function of the bytes.
#[verifier::external_body]
fn decode_index_128(bytes: &[u8]) -> (r: Result<Vec<(u128, (u64, u32))>, bitcode::Error>)
    ensures
        match r {
            Ok(raw) => index_128(bytes@) == Some(raw@),
            Err(_) => index_128(bytes@) is None,
        },
{
    bitcode::decode(bytes)
}

/// `bitcode::decode` at a table of contents: its result is a function of the
/// bytes.
#[verifier::external_body]
pub(crate) fn decode_toc(bytes: &[u8]) -> (r: Result<Vec<(String, u64)>, bitcode::Error>)
    ensures
        match r {
            Ok(raw) => toc_in(bytes@) == Some(toc_parts(raw@)),
            Err(_) => toc_in(bytes@) is None,
        },
{
    bitcode::decode(bytes)
}

/// `bitcode::encode` at a chunk index with 64-bit hashes: its result is a
/// function of the entries, and decoding it gives the entries back.
#[verifier::external_body]
fn encode_index_64(entries: &Vec<(u64, (u64, u32))>) -> (bytes: Vec<u8>)
    ensures
        bytes@ == index_bytes_64(entries@),
        index_64(bytes@) == Some(entries@),
{
    bitcode::encode(entries)
}

/// `bitcode::encode` at a chunk index with 128-bit hashes: its result is a
/// function of the entries, and decoding it gives the entries back.
#[verifier::external_body]
fn encode_index_128(entries: &Vec<(u128, (u64, u32))>) -> (bytes: Vec<u8>)
    ensures
        bytes@ == index_bytes_128(entries@),
        index_128(bytes@) == Some(entries@),
{
    bitcode::encode(entries)
}

/// A manifest made of its parts.
pub open spec fn manifest_from<H>(part: (u64, Seq<(H, u64, u32)>)) -> ManifestView<H> {
    ManifestView {
        chunk_count: part.0,
        chunk_metadata: part.1.map_values(
            |c: (H, u64, u32)| SSAChunkMeta { hash: c.0, offset: c.1, length: c.2 },
        ),
    }
}

/// Manifests made of their parts.
pub open spec fn manifests_from<H>(parts: Seq<(u64, Seq<(H, u64, u32)>)>) -> Seq<ManifestView<H>> {
    parts.map_values(|p: (u64, Seq<(H, u64, u32)>)| manifest_from(p))
}

/// A chunk index made of its parts.
pub open spec fn index_from<H>(parts: Seq<(H, (u64, u32))>) -> Seq<(H, ChunkLocation)> {
    parts.map_values(
        |e: (H, (u64, u32))|
            (e.0, ChunkLocation { offset: e.1.0, compressed_length: e.1.1 }),
    )
}

/// The parts of a chunk index.
pub open spec fn index_into<H>(entries: Seq<(H, ChunkLocation)>) -> Seq<(H, (u64, u32))> {
    entries.map_values(|e: (H, ChunkLocation)| (e.0, (e.1.offset, e.1.compressed_length)))
}

fn assemble_manifest<H: Copy>(count: u64, parts: &Vec<(H, u64, u32)>) -> (manifest:
    FileManifestParent<H>)
    ensures
        manifest@ == manifest_from((count, parts@)),
{
    let mut chunk_metadata: Vec<SSAChunkMeta<H>> = Vec::new();
    let mut i: usize = 0;
    while i < parts.len()
        invariant
            i <= parts@.len(),
            chunk_metadata@ =~= manifest_from((count, parts@)).chunk_metadata.take(i as int),
        decreases parts@.len() - i,
    {
        chunk_metadata.push(
            SSAChunkMeta { hash: parts[i].0, offset: parts[i].1, length: parts[i].2 },
        );
        i += 1;
    }
    assert(chunk_metadata@ =~= manifest_from((count, parts@)).chunk_metadata);
    FileManifestParent { chunk_count: count, chunk_metadata }
}

fn assemble_manifests<H: Copy>(raw: &Vec<(u64, Vec<(H, u64, u32)>)>) -> (manifests: Vec<
    FileManifestParent<H>,
>)
    ensures
        structs::manifest_views(manifests@) == manifests_from(manifest_parts(raw@)),
{
    let mut manifests: Vec<FileManifestParent<H>> = Vec::new();
    let ghost wanted = manifests_from(manifest_parts(raw@));
    let mut i: usize = 0;
    while i < raw.len()
        invariant
            i <= raw@.len(),
            wanted == manifests_from(manifest_parts(raw@)),
            structs::manifest_views(manifests@) =~= wanted.take(i as int),
        decreases raw@.len() - i,
    {
        let manifest = assemble_manifest(raw[i].0, &raw[i].1);
        let ghost before = structs::manifest_views(manifests@);
        manifests.push(manifest);
        assert(structs::manifest_views(manifests@) =~= before.push(manifest@));
        assert(manifest@ == wanted[i as int]);
        i += 1;
    }
    assert(wanted.take(i as int) =~= wanted);
    manifests
}

fn assemble_index<H: Copy>(raw: &Vec<(H, (u64, u32))>) -> (index: Vec<(H, ChunkLocation)>)
    ensures
        index@ == index_from(raw@),
{
    let mut index: Vec<(H, ChunkLocation)> = Vec::new();
    let mut i: usize = 0;
    while i < raw.len()
        invariant
            i <= raw@.len(),
            index@ =~= index_from(raw@).take(i as int),
        decreases raw@.len() - i,
    {
        let entry = raw[i];
        index.push((entry.0, ChunkLocation { offset: entry.1.0, compressed_length: entry.1.1 }));
        i += 1;
    }
    assert(index@ =~= index_from(raw@));
    index
}

fn split_index<H: Copy>(entries: &Vec<(H, ChunkLocation)>) -> (raw: Vec<(H, (u64, u32))>)
    ensures
        raw@ == index_into(entries@),
        index_from(raw@) == entries@,
{
    let mut raw: Vec<(H, (u64, u32))> = Vec::new();
    let mut i: usize = 0;
    while i < entries.len()
        invariant
            i <= entries@.len(),
            raw@ =~= index_into(entries@).take(i as int),
        decreases entries@.len() - i,
    {
        let entry = entries[i];
        raw.push((entry.0, (entry.1.offset, entry.1.compressed_length)));
        i += 1;
    }
    assert(raw@ =~= index_into(entries@));
    assert(index_from(raw@) =~= entries@);
    raw
}

/// A chunk hash that can be written to an archive and read back.
pub trait ArchiveHash: Hashable {
    /// The list of manifests that a byte string encodes.
    spec fn manifests_in(bytes: Seq<u8>) -> Option<Seq<ManifestView<Self>>>;

    /// The chunk index that a byte string encodes.
    spec fn index_in(bytes: Seq<u8>) -> Option<Seq<(Self, ChunkLocation)>>;

    /// The encoding of a chunk index.
    spec fn index_bytes(entries: Seq<(Self, ChunkLocation)>) -> Seq<u8>;

    /// Decodes a list of manifests.
    fn decode_manifests(bytes: &[u8]) -> (r: Result<Vec<FileManifestParent<Self>>, bitcode::Error>)
        ensures
            match r {
                Ok(manifests) => Self::manifests_in(bytes@) == Some(
                    structs::manifest_views(manifests@),
                ),
                Err(_) => Self::manifests_in(bytes@) is None,
            },
    ;

    /// Decodes a chunk index.
    fn decode_index(bytes: &[u8]) -> (r: Result<Vec<(Self, ChunkLocation)>, bitcode::Error>)
        ensures
            match r {
                Ok(entries) => Self::index_in(bytes@) == Some(entries@),
                Err(_) => Self::index_in(bytes@) is None,
            },
    ;

    /// Encodes a chunk index; decoding gives it back.
    fn encode_index(entries: &Vec<(Self, ChunkLocation)>) -> (bytes: Vec<u8>)
        ensures
            bytes@ == Self::index_bytes(entries@),
            Self::index_in(bytes@) == Some(entries@),
    ;
}

impl ArchiveHash for u64 {
    open spec fn manifests_in(bytes: Seq<u8>) -> Option<Seq<ManifestView<u64>>> {
        match manifests_64(bytes) {
            Some(parts) => Some(manifests_from(parts)),
            None => None,
        }
    }

    open spec fn index_in(bytes: Seq<u8>) -> Option<Seq<(u64, ChunkLocation)>> {
        match index_64(bytes) {
            Some(parts) => Some(index_from(parts)),
            None => None,
        }
    }

    open spec fn index_bytes(entries: Seq<(u64, ChunkLocation)>) -> Seq<u8> {
        index_bytes_64(index_into(entries))
    }

    fn decode_manifests(bytes: &[u8]) -> (r: Result<
        Vec<FileManifestParent<u64>>,
        bitcode::Error,
    >) {
        match decode_manifests_64(bytes) {
            Ok(raw) => Ok(assemble_manifests(&raw)),
            Err(e) => Err(e),
        }
    }

    fn decode_index(bytes: &[u8]) -> (r: Result<Vec<(u64, ChunkLocation)>, bitcode::Error>) {
        match decode_index_64(bytes) {
            Ok(raw) => Ok(assemble_index(&raw)),
            Err(e) => Err(e),
        }
    }

    fn encode_index(entries: &Vec<(u64, ChunkLocation)>) -> (bytes: Vec<u8>) {
        let raw = split_index(entries);
        encode_index_64(&raw)
    }
}

impl ArchiveHash for u128 {
    open spec fn manifests_in(bytes: Seq<u8>) -> Option<Seq<ManifestView<u128>>> {
        match manifests_128(bytes) {
            Some(parts) => Some(manifests_from(parts)),
            None => None,
        }
    }

    open spec fn index_in(bytes: Seq<u8>) -> Option<Seq<(u128, ChunkLocation)>> {
        match index_128(bytes) {
            Some(parts) => Some(index_from(parts)),
            None => None,
        }
    }

    open spec fn index_bytes(entries: Seq<(u128, ChunkLocation)>) -> Seq<u8> {
        index_bytes_128(index_into(entries))
    }

    fn decode_manifests(bytes: &[u8]) -> (r: Result<
        Vec<FileManifestParent<u128>>,
        bitcode::Error,
    >) {
        match decode_manifests_128(bytes) {
            Ok(raw) => Ok(assemble_manifests(&raw)),
            Err(e) => Err(e),
        }
    }

    fn decode_index(bytes: &[u8]) -> (r: Result<Vec<(u128, ChunkLocation)>, bitcode::Error>) {
        match decode_index_128(bytes) {
            Ok(raw) => Ok(assemble_index(&raw)),
            Err(e) => Err(e),
        }
    }

    fn encode_index(entries: &Vec<(u128, ChunkLocation)>) -> (bytes: Vec<u8>) {
        let raw = split_index(entries);
        encode_index_128(&raw)
    }
}

/// A decoded manifest has the parts that it was made of, chunk by chunk.
pub proof fn law_manifest_has_its_parts<H>(part: (u64, Seq<(H, u64, u32)>), i: int)
    requires
        0 <= i < part.1.len(),
    ensures
        manifest_from(part).chunk_count == part.0,
        manifest_from(part).chunk_metadata.len() == part.1.len(),
        manifest_from(part).chunk_metadata[i].hash == part.1[i].0,
        manifest_from(part).chunk_metadata[i].offset == part.1[i].1,
        manifest_from(part).chunk_metadata[i].length == part.1[i].2,
{
}

/// Taking a chunk index apart and putting it together again changes nothing, either
/// way round, and the first number of an entry is its offset.
pub proof fn law_index_survives_being_split<H>(
    entries: Seq<(H, ChunkLocation)>,
    parts: Seq<(H, (u64, u32))>,
)
    ensures
        index_from(index_into(entries)) == entries,
        index_into(index_from(parts)) == parts,
        forall|i: int|
            0 <= i < parts.len() ==> (#[trigger] index_from(parts)[i]).1.offset == parts[i].1.0
                && index_from(parts)[i].1.compressed_length == parts[i].1.1,
{
    assert(index_from(index_into(entries)) =~= entries);
    assert(index_into(index_from(parts)) =~= parts);
}

} // verus!
