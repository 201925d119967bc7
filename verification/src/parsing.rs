//! Reading the sections of an archive.

use std::collections::HashMap;
use vstd::prelude::*;
use crate::codec;
use crate::codec::{decode_toc, ArchiveHash};
use crate::error::SpriteShrinkError;
use crate::fetch;
use crate::mapper::same_bytes;
use crate::structs;
use crate::structs::{
    ChunkLocation, FileHeader, FileManifestParent, FileRegion, SSMCFormatData, SSMCTocEntry,
};

verus! {

/// Why a section of an archive could not be read.
#[derive(Debug)]
pub enum ParsingError {
    IndexDecodeError(String),
    InvalidFileVersion(),
    InvalidHeader(String),
    InvalidFormatData(String),
    ManifestDecodeError(String),
    TOCDecodeError(String),
}

/// The bytes that open every archive: "SSARCHV1".
pub const MAGIC_NUMBER: [u8; 8] = [0x53, 0x53, 0x41, 0x52, 0x43, 0x48, 0x56, 0x31];

/// The latest archive version that can be read.
pub const SUPPORTED_VERSION: u32 = 0x00020000;

// ---------------------------------------------------------------------------
// Little-endian numbers
// ---------------------------------------------------------------------------

/// The 16-bit number at a position, least significant byte first.
pub open spec fn le16(b: Seq<u8>, at: int) -> int {
    b[at] + 256 * b[at + 1]
}

/// The 32-bit number at a position, least significant byte first.
pub open spec fn le32(b: Seq<u8>, at: int) -> int {
    le16(b, at) + 65536 * le16(b, at + 2)
}

/// The 64-bit number at a position, least significant byte first.
pub open spec fn le64(b: Seq<u8>, at: int) -> int {
    le32(b, at) + 4294967296 * le32(b, at + 4)
}

fn get16(b: &[u8], at: usize) -> (v: u16)
    requires
        at + 2 <= b.len(),
    ensures
        v == le16(b@, at as int),
{
    b[at] as u16 + 256 * (b[at + 1] as u16)
}

fn get32(b: &[u8], at: usize) -> (v: u32)
    requires
        at + 4 <= b.len(),
    ensures
        v == le32(b@, at as int),
{
    get16(b, at) as u32 + 65536 * (get16(b, at + 2) as u32)
}

fn get64(b: &[u8], at: usize) -> (v: u64)
    requires
        at + 8 <= b.len(),
    ensures
        v == le64(b@, at as int),
{
    get32(b, at) as u64 + 4294967296 * (get32(b, at + 4) as u64)
}

fn put16(out: &mut Vec<u8>, v: u16)
    ensures
        final(out)@.len() == old(out)@.len() + 2,
        final(out)@.take(old(out)@.len() as int) == old(out)@,
        le16(final(out)@, old(out)@.len() as int) == v,
{
    out.push((v % 256) as u8);
    out.push((v / 256) as u8);
    assert(out@.take(old(out)@.len() as int) =~= old(out)@);
}

fn put32(out: &mut Vec<u8>, v: u32)
    ensures
        final(out)@.len() == old(out)@.len() + 4,
        final(out)@.take(old(out)@.len() as int) == old(out)@,
        le32(final(out)@, old(out)@.len() as int) == v,
{
    let ghost n = out@.len() as int;
    put16(out, (v % 65536) as u16);
    let ghost mid = out@;
    put16(out, (v / 65536) as u16);
    proof {
        lemma_prefix_kept(old(out)@, mid, out@);
        assert(le16(out@, n) == le16(mid, n)) by {
            assert(mid[n] == out@.take(mid.len() as int)[n]);
            assert(mid[n + 1] == out@.take(mid.len() as int)[n + 1]);
        }
    }
}

fn put64(out: &mut Vec<u8>, v: u64)
    ensures
        final(out)@.len() == old(out)@.len() + 8,
        final(out)@.take(old(out)@.len() as int) == old(out)@,
        le64(final(out)@, old(out)@.len() as int) == v,
{
    let ghost n = out@.len() as int;
    put32(out, (v % 4294967296) as u32);
    let ghost mid = out@;
    put32(out, (v / 4294967296) as u32);
    proof {
        lemma_prefix_kept(old(out)@, mid, out@);
        lemma_same_le32(mid, out@, n);
    }
}

/// What stood before stays.
proof fn lemma_prefix_kept(a: Seq<u8>, b: Seq<u8>, c: Seq<u8>)
    requires
        a.len() <= b.len() <= c.len(),
        b.take(a.len() as int) == a,
        c.take(b.len() as int) == b,
    ensures
        c.take(a.len() as int) == a,
{
    assert(c.take(a.len() as int) =~= c.take(b.len() as int).take(a.len() as int));
}

proof fn lemma_same_le32(a: Seq<u8>, b: Seq<u8>, at: int)
    requires
        0 <= at,
        at + 4 <= a.len() <= b.len(),
        b.take(a.len() as int) == a,
    ensures
        le32(a, at) == le32(b, at),
{
    assert forall|k: int| at <= k < at + 4 implies a[k] == b[k] by {
        assert(a[k] == b.take(a.len() as int)[k]);
    }
}

proof fn lemma_same_le64(a: Seq<u8>, b: Seq<u8>, at: int)
    requires
        0 <= at,
        at + 8 <= a.len() <= b.len(),
        b.take(a.len() as int) == a,
    ensures
        le64(a, at) == le64(b, at),
{
    lemma_same_le32(a, b, at);
    lemma_same_le32(a, b, at + 4);
}

// ---------------------------------------------------------------------------
// Header
// ---------------------------------------------------------------------------

/// Whether a byte string spells out a header.
pub open spec fn is_header(bytes: Seq<u8>, h: FileHeader) -> bool {
    &&& bytes.len() == 28
    &&& h.magic_num@ == bytes.subrange(0, 8)
    &&& h.file_version == le32(bytes, 8)
    &&& h.file_count == le32(bytes, 12)
    &&& h.algorithm == le16(bytes, 16)
    &&& h.hash_type == bytes[18]
    &&& h.format_id == bytes[19]
    &&& h.toc_offset == le32(bytes, 20)
    &&& h.toc_length == le32(bytes, 24)
}

impl FileHeader {
    /// Length in bytes of an encoded header.
    pub const HEADER_SIZE: u32 = 28;

    /// The header of an archive of the current version whose table of contents
    /// follows directly.
    pub fn build_file_header(
        file_count: u32,
        algorithm: u16,
        hash_type: u8,
        format_id: u8,
        toc_length: u32,
    ) -> (h: FileHeader)
        ensures
            h.magic_num@ == MAGIC_NUMBER@,
            h.file_version == SUPPORTED_VERSION,
            h.file_count == file_count,
            h.algorithm == algorithm,
            h.hash_type == hash_type,
            h.format_id == format_id,
            h.toc_offset == 28,
            h.toc_length == toc_length,
    {
        FileHeader {
            magic_num: MAGIC_NUMBER,
            file_version: SUPPORTED_VERSION,
            file_count,
            algorithm,
            hash_type,
            format_id,
            toc_offset: 28,
            toc_length,
        }
    }

    /// Spells the header out in bytes.
    pub fn to_bytes(&self) -> (bytes: Vec<u8>)
        ensures
            is_header(bytes@, *self),
    {
        let mut out: Vec<u8> = Vec::new();
        let mut i: usize = 0;
        while i < 8
            invariant
                i <= 8,
                out@ =~= self.magic_num@.take(i as int),
            decreases 8 - i,
        {
            out.push(self.magic_num[i]);
            i += 1;
        }
        let ghost a = out@;
        put32(&mut out, self.file_version);
        let ghost b = out@;
        put32(&mut out, self.file_count);
        let ghost c = out@;
        put16(&mut out, self.algorithm);
        let ghost d = out@;
        out.push(self.hash_type);
        out.push(self.format_id);
        let ghost e = out@;
        put32(&mut out, self.toc_offset);
        let ghost f = out@;
        put32(&mut out, self.toc_length);
        let ghost g = out@;
        proof {
            assert(e.take(d.len() as int) =~= d);
            lemma_prefix_kept(e, f, g);
            lemma_prefix_kept(d, e, g);
            lemma_prefix_kept(c, d, g);
            lemma_prefix_kept(b, c, g);
            lemma_prefix_kept(a, b, g);
            lemma_same_le32(b, g, 8);
            lemma_same_le32(c, g, 12);
            lemma_same_le32(f, g, 20);
            assert(d[16] == g.take(d.len() as int)[16]);
            assert(d[17] == g.take(d.len() as int)[17]);
            assert(e[18] == g.take(e.len() as int)[18]);
            assert(e[19] == g.take(e.len() as int)[19]);
            assert(g.subrange(0, 8) =~= g.take(8));
            assert(a =~= self.magic_num@);
        }
        out
    }
}

/// A failed reinterpretation of bytes.
#[verifier::external_type_specification]
#[verifier::external_body]
pub struct ExPodCastError(bytemuck::PodCastError);

/// How a failed reinterpretation describes itself: by the length of the slice where
/// that is wrong, by its alignment otherwise.
pub open spec fn refusal_text(length_fits: bool) -> Seq<char> {
    if length_fits {
        "TargetAlignmentGreaterAndInputNotAligned"@
    } else {
        "SizeMismatch"@
    }
}

/// `bytemuck::try_from_bytes` at seven 32-bit words, which have the size and the
/// alignment of a header, and `bytemuck::cast_ref` to give them back as bytes: a
/// slice of another length than 28 bytes is refused for its length, and of one that
/// is taken the bytes come out. A slice of that length is refused where its address
/// is no multiple of four; when that is so is left unsaid, since the address of a
/// slice is no part of its contents.
#[verifier::external_body]
fn cast_header(bytes: &[u8]) -> (r: Result<&[u8; 28], bytemuck::PodCastError>)
    ensures
        r matches Ok(array) ==> bytes@.len() == 28 && array@ == bytes@,
        r matches Err(e) ==> forall|text: String| #[trigger]
            fetch::has_text(e, text) ==> text@ == refusal_text(bytes@.len() == 28),
{
    bytemuck::try_from_bytes::<[u32; 7]>(bytes).map(bytemuck::cast_ref)
}

/// `bytemuck::try_from_bytes` at seven 64-bit words, which have the size and the
/// alignment of format data, and `bytemuck::cast_ref` to give them back as bytes: a
/// slice of another length than 56 bytes is refused for its length, and of one that
/// is taken the bytes come out, eight for each word. A slice of that length is
/// refused where its address does not suit a 64-bit word; when that is so is left
/// unsaid, since the address of a slice is no part of its contents.
#[verifier::external_body]
fn cast_format_data(bytes: &[u8]) -> (r: Result<&[[u8; 8]; 7], bytemuck::PodCastError>)
    ensures
        r matches Ok(words) ==> bytes@.len() == 56 && forall|i: int|
            0 <= i < 7 ==> (#[trigger] words@[i])@ == bytes@.subrange(8 * i, 8 * i + 8),
        r matches Err(e) ==> forall|text: String| #[trigger]
            fetch::has_text(e, text) ==> text@ == refusal_text(bytes@.len() == 56),
{
    bytemuck::try_from_bytes::<[u64; 7]>(bytes).map(bytemuck::cast_ref)
}

/// Whether a text is how a failed decoding describes itself.
pub open spec fn is_decoding_text(text: String) -> bool {
    exists|e: bitcode::Error| #[trigger] fetch::has_text(e, text)
}

/// What 28 bytes yield as a header: another magic number and a newer version are
/// refused, in this order.
pub open spec fn checked_header(
    bytes: Seq<u8>,
    r: Result<FileHeader, SpriteShrinkError>,
) -> bool {
    if bytes.subrange(0, 8) != MAGIC_NUMBER@ {
        r matches Err(SpriteShrinkError::Parsing(ParsingError::InvalidHeader(m))) && m@
            == "File Magic Number is invalid."@
    } else if le32(bytes, 8) > SUPPORTED_VERSION {
        r == Err::<FileHeader, SpriteShrinkError>(
            SpriteShrinkError::Parsing(ParsingError::InvalidFileVersion()),
        )
    } else {
        r matches Ok(h) && is_header(bytes, h)
    }
}

/// What parsing a header yields: a slice of another length is refused, and so is
/// one that is not aligned; otherwise the bytes decide.
pub open spec fn header_outcome(
    bytes: Seq<u8>,
    r: Result<FileHeader, SpriteShrinkError>,
) -> bool {
    ||| r matches Err(SpriteShrinkError::Parsing(ParsingError::InvalidHeader(m))) && m@
        == refusal_text(bytes.len() == 28)
    ||| bytes.len() == 28 && checked_header(bytes, r)
}

/// Reads the header of an archive from its bytes.
pub fn check_header(bytes: &[u8; 28]) -> (r: Result<FileHeader, SpriteShrinkError>)
    ensures
        checked_header(bytes@, r),
{
    let magic_num = [
        bytes[0], bytes[1], bytes[2], bytes[3], bytes[4], bytes[5], bytes[6], bytes[7],
    ];
    assert(magic_num@ =~= bytes@.subrange(0, 8));
    if !same_bytes(magic_num.as_slice(), MAGIC_NUMBER.as_slice()) {
        return Err(
            SpriteShrinkError::Parsing(
                ParsingError::InvalidHeader("File Magic Number is invalid.".to_string()),
            ),
        );
    }
    let b = bytes.as_slice();
    let file_version = get32(b, 8);
    if file_version > SUPPORTED_VERSION {
        return Err(SpriteShrinkError::Parsing(ParsingError::InvalidFileVersion()));
    }
    Ok(
        FileHeader {
            magic_num,
            file_version,
            file_count: get32(b, 12),
            algorithm: get16(b, 16),
            hash_type: b[18],
            format_id: b[19],
            toc_offset: get32(b, 20),
            toc_length: get32(b, 24),
        },
    )
}

/// Reads the header of an archive. A slice of another length than a header's, or
/// at an address that does not suit one, is refused.
pub fn parse_file_header(header_data: &[u8]) -> (r: Result<FileHeader, SpriteShrinkError>)
    ensures
        header_outcome(header_data@, r),
{
    match cast_header(header_data) {
        Ok(bytes) => check_header(bytes),
        Err(e) => {
            let text = e.to_string();
            assert(fetch::has_text(e, text));
            Err(SpriteShrinkError::Parsing(ParsingError::InvalidHeader(text)))
        },
    }
}

/// Parsing gives back the header that was spelled out: two headers with the
/// same bytes have the same fields.
pub proof fn law_header_is_read_back(bytes: Seq<u8>, written: FileHeader, read: FileHeader)
    requires
        is_header(bytes, written),
        is_header(bytes, read),
    ensures
        read.magic_num@ == written.magic_num@,
        read.file_version == written.file_version,
        read.file_count == written.file_count,
        read.algorithm == written.algorithm,
        read.hash_type == written.hash_type,
        read.format_id == written.format_id,
        read.toc_offset == written.toc_offset,
        read.toc_length == written.toc_length,
{
}

/// A header that was spelled out with the right magic number and no newer version
/// is accepted and read back.
pub proof fn law_own_header_is_accepted(
    bytes: Seq<u8>,
    written: FileHeader,
    r: Result<FileHeader, SpriteShrinkError>,
)
    requires
        is_header(bytes, written),
        written.magic_num@ == MAGIC_NUMBER@,
        written.file_version <= SUPPORTED_VERSION,
        checked_header(bytes, r),
    ensures
        r is Ok,
        r->Ok_0.magic_num@ == written.magic_num@,
        r->Ok_0.file_version == written.file_version,
        r->Ok_0.file_count == written.file_count,
        r->Ok_0.algorithm == written.algorithm,
        r->Ok_0.hash_type == written.hash_type,
        r->Ok_0.format_id == written.format_id,
        r->Ok_0.toc_offset == written.toc_offset,
        r->Ok_0.toc_length == written.toc_length,
{
}

// ---------------------------------------------------------------------------
// Format data
// ---------------------------------------------------------------------------

/// Whether a byte string spells out where the sections of an archive stand.
pub open spec fn is_format_data(bytes: Seq<u8>, f: SSMCFormatData) -> bool {
    &&& bytes.len() == 56
    &&& f.enc_manifest.offset == le64(bytes, 0)
    &&& f.enc_manifest.length == le64(bytes, 8)
    &&& f.data_dictionary.offset == le64(bytes, 16)
    &&& f.data_dictionary.length == le64(bytes, 24)
    &&& f.enc_chunk_index.offset == le64(bytes, 32)
    &&& f.enc_chunk_index.length == le64(bytes, 40)
    &&& f.data_offset == le64(bytes, 48)
}

impl SSMCFormatData {
    /// Lays the sections of an archive out one after the other, from `start`
    /// on: manifest, dictionary, chunk index, chunks.
    pub fn build_format_data(
        start: u64,
        manifest_length: u64,
        dictionary_length: u64,
        chunk_index_length: u64,
    ) -> (f: SSMCFormatData)
        requires
            start + manifest_length + dictionary_length + chunk_index_length <= u64::MAX,
        ensures
            f.enc_manifest == (FileRegion { offset: start, length: manifest_length }),
            f.data_dictionary == (FileRegion {
                offset: (start + manifest_length) as u64,
                length: dictionary_length,
            }),
            f.enc_chunk_index == (FileRegion {
                offset: (start + manifest_length + dictionary_length) as u64,
                length: chunk_index_length,
            }),
            f.data_offset == start + manifest_length + dictionary_length + chunk_index_length,
    {
        let dictionary: u64 = start + manifest_length;
        let chunk_index: u64 = dictionary + dictionary_length;
        SSMCFormatData {
            enc_manifest: FileRegion { offset: start, length: manifest_length },
            data_dictionary: FileRegion { offset: dictionary, length: dictionary_length },
            enc_chunk_index: FileRegion { offset: chunk_index, length: chunk_index_length },
            data_offset: chunk_index + chunk_index_length,
        }
    }

    /// Spells the positions out in bytes.
    pub fn to_bytes(&self) -> (bytes: Vec<u8>)
        ensures
            is_format_data(bytes@, *self),
    {
        let mut out: Vec<u8> = Vec::new();
        put64(&mut out, self.enc_manifest.offset);
        let ghost a = out@;
        put64(&mut out, self.enc_manifest.length);
        let ghost b = out@;
        put64(&mut out, self.data_dictionary.offset);
        let ghost c = out@;
        put64(&mut out, self.data_dictionary.length);
        let ghost d = out@;
        put64(&mut out, self.enc_chunk_index.offset);
        let ghost e = out@;
        put64(&mut out, self.enc_chunk_index.length);
        let ghost f = out@;
        put64(&mut out, self.data_offset);
        let ghost g = out@;
        proof {
            lemma_prefix_kept(e, f, g);
            lemma_prefix_kept(d, e, g);
            lemma_prefix_kept(c, d, g);
            lemma_prefix_kept(b, c, g);
            lemma_prefix_kept(a, b, g);
            lemma_same_le64(a, g, 0);
            lemma_same_le64(b, g, 8);
            lemma_same_le64(c, g, 16);
            lemma_same_le64(d, g, 24);
            lemma_same_le64(e, g, 32);
            lemma_same_le64(f, g, 40);
        }
        out
    }
}

/// Eight bytes of a longer string spell the same number there and alone.
proof fn lemma_word_at(bytes: Seq<u8>, at: int)
    requires
        0 <= at,
        at + 8 <= bytes.len(),
    ensures
        le64(bytes.subrange(at, at + 8), 0) == le64(bytes, at),
{
}

fn word(words: &[[u8; 8]; 7], i: usize) -> (v: u64)
    requires
        i < 7,
    ensures
        v == le64(words@[i as int]@, 0),
{
    let w = words[i];
    get64(w.as_slice(), 0)
}

/// Reads where the sections of an archive stand from seven words of eight bytes.
pub fn format_data_of(words: &[[u8; 8]; 7]) -> (f: SSMCFormatData)
    ensures
        f.enc_manifest.offset == le64(words@[0]@, 0),
        f.enc_manifest.length == le64(words@[1]@, 0),
        f.data_dictionary.offset == le64(words@[2]@, 0),
        f.data_dictionary.length == le64(words@[3]@, 0),
        f.enc_chunk_index.offset == le64(words@[4]@, 0),
        f.enc_chunk_index.length == le64(words@[5]@, 0),
        f.data_offset == le64(words@[6]@, 0),
{
    SSMCFormatData {
        enc_manifest: FileRegion { offset: word(words, 0), length: word(words, 1) },
        data_dictionary: FileRegion { offset: word(words, 2), length: word(words, 3) },
        enc_chunk_index: FileRegion { offset: word(words, 4), length: word(words, 5) },
        data_offset: word(words, 6),
    }
}

/// Reads where the sections of an archive stand. A slice of another length than
/// that of format data, or at an address that does not suit it, is refused.
pub fn parse_format_data(format_data: &[u8]) -> (r: Result<SSMCFormatData, SpriteShrinkError>)
    ensures
        match r {
            Ok(f) => is_format_data(format_data@, f),
            Err(SpriteShrinkError::Parsing(ParsingError::InvalidFormatData(m))) => m@
                == refusal_text(format_data@.len() == 56),
            _ => false,
        },
{
    let words = match cast_format_data(format_data) {
        Ok(words) => words,
        Err(e) => {
            let text = e.to_string();
            assert(fetch::has_text(e, text));
            return Err(SpriteShrinkError::Parsing(ParsingError::InvalidFormatData(text)));
        },
    };
    proof {
        assert(words@[0]@ == format_data@.subrange(0, 8));
        assert(words@[1]@ == format_data@.subrange(8, 16));
        assert(words@[2]@ == format_data@.subrange(16, 24));
        assert(words@[3]@ == format_data@.subrange(24, 32));
        assert(words@[4]@ == format_data@.subrange(32, 40));
        assert(words@[5]@ == format_data@.subrange(40, 48));
        assert(words@[6]@ == format_data@.subrange(48, 56));
        lemma_word_at(format_data@, 0);
        lemma_word_at(format_data@, 8);
        lemma_word_at(format_data@, 16);
        lemma_word_at(format_data@, 24);
        lemma_word_at(format_data@, 32);
        lemma_word_at(format_data@, 40);
        lemma_word_at(format_data@, 48);
    }
    Ok(format_data_of(words))
}

/// Parsing gives back the positions that were spelled out.
pub proof fn law_format_data_is_read_back(
    bytes: Seq<u8>,
    written: SSMCFormatData,
    read: SSMCFormatData,
)
    requires
        is_format_data(bytes, written),
        is_format_data(bytes, read),
    ensures
        read == written,
{
}

// ---------------------------------------------------------------------------
// Manifests, chunk index and table of contents
// ---------------------------------------------------------------------------

/// What parsing a section of manifests yields.
pub open spec fn manifest_outcome<H: ArchiveHash>(
    bytes: Seq<u8>,
    r: Result<Vec<FileManifestParent<H>>, SpriteShrinkError>,
) -> bool {
    match H::manifests_in(bytes) {
        Some(manifests) => r matches Ok(v) && structs::manifest_views(v@) == manifests,
        None => r matches Err(SpriteShrinkError::Parsing(ParsingError::ManifestDecodeError(m)))
            && is_decoding_text(m),
    }
}

/// Reads the manifests of an archive.
pub fn parse_file_metadata<H: ArchiveHash>(manifest_data: &[u8]) -> (r: Result<
    Vec<FileManifestParent<H>>,
    SpriteShrinkError,
>)
    ensures
        manifest_outcome(manifest_data@, r),
{
    match H::decode_manifests(manifest_data) {
        Ok(manifests) => Ok(manifests),
        Err(e) => {
            let text = e.to_string();
            assert(fetch::has_text(e, text));
            Err(SpriteShrinkError::Parsing(ParsingError::ManifestDecodeError(text)))
        },
    }
}

/// The map that a list of entries stands for; a later entry replaces an earlier
/// one with the same key.
pub open spec fn map_of<H>(entries: Seq<(H, ChunkLocation)>) -> Map<H, ChunkLocation>
    decreases entries.len(),
{
    if entries.len() == 0 {
        Map::empty()
    } else {
        map_of(entries.drop_last()).insert(entries.last().0, entries.last().1)
    }
}

/// Turns a list of entries into a map.
pub fn index_to_map<H: ArchiveHash>(entries: &Vec<(H, ChunkLocation)>) -> (map: HashMap<
    H,
    ChunkLocation,
>)
    ensures
        map@ == map_of(entries@),
{
    broadcast use vstd::std_specs::hash::group_hash_axioms;

    proof {
        H::lemma_key_model();
    }
    let mut map: HashMap<H, ChunkLocation> = HashMap::new();
    let mut i: usize = 0;
    assert(entries@.take(0) =~= Seq::empty());
    while i < entries.len()
        invariant
            i <= entries@.len(),
            map@ == map_of(entries@.take(i as int)),
            vstd::std_specs::hash::obeys_key_model::<H>(),
        decreases entries@.len() - i,
    {
        assert(entries@.take(i + 1).drop_last() =~= entries@.take(i as int));
        let entry = entries[i];
        map.insert(entry.0, entry.1);
        i += 1;
    }
    assert(entries@.take(i as int) =~= entries@);
    map
}

/// What parsing a section with a chunk index yields.
pub open spec fn index_outcome<H: ArchiveHash>(
    bytes: Seq<u8>,
    r: Result<HashMap<H, ChunkLocation>, SpriteShrinkError>,
) -> bool {
    match H::index_in(bytes) {
        Some(entries) => r matches Ok(map) && map@ == map_of(entries),
        None => r matches Err(SpriteShrinkError::Parsing(ParsingError::IndexDecodeError(m)))
            && is_decoding_text(m),
    }
}

/// Reads the chunk index of an archive.
pub fn parse_file_chunk_index<H: ArchiveHash>(chunk_index_data: &[u8]) -> (r: Result<
    HashMap<H, ChunkLocation>,
    SpriteShrinkError,
>)
    ensures
        index_outcome(chunk_index_data@, r),
{
    match H::decode_index(chunk_index_data) {
        Ok(entries) => Ok(index_to_map(&entries)),
        Err(e) => {
            let text = e.to_string();
            assert(fetch::has_text(e, text));
            Err(SpriteShrinkError::Parsing(ParsingError::IndexDecodeError(text)))
        },
    }
}

/// Turns decoded entries of a table of contents into their final form.
pub(crate) fn assemble_toc(raw: Vec<(String, u64)>) -> (toc: Vec<SSMCTocEntry>)
    ensures
        structs::toc_views(toc@) == codec::toc_parts(raw@),
{
    let mut toc: Vec<SSMCTocEntry> = Vec::new();
    let ghost wanted = codec::toc_parts(raw@);
    let mut i: usize = 0;
    while i < raw.len()
        invariant
            i <= raw@.len(),
            wanted == codec::toc_parts(raw@),
            structs::toc_views(toc@) =~= wanted.take(i as int),
        decreases raw@.len() - i,
    {
        let entry = SSMCTocEntry { filename: raw[i].0.clone(), uncompressed_size: raw[i].1 };
        let ghost before = structs::toc_views(toc@);
        toc.push(entry);
        assert(structs::toc_views(toc@) =~= before.push((entry.filename@, entry.uncompressed_size)));
        i += 1;
    }
    assert(wanted.take(i as int) =~= wanted);
    toc
}

/// Reads the table of contents of an archive.
pub fn parse_file_toc(enc_toc_data: &[u8]) -> (r: Result<Vec<SSMCTocEntry>, SpriteShrinkError>)
    ensures
        match codec::toc_in(enc_toc_data@) {
            Some(toc) => r matches Ok(v) && structs::toc_views(v@) == toc,
            None => r matches Err(SpriteShrinkError::Parsing(ParsingError::TOCDecodeError(m)))
                && is_decoding_text(m),
        },
{
    match decode_toc(enc_toc_data) {
        Ok(raw) => Ok(assemble_toc(raw)),
        Err(e) => {
            let text = e.to_string();
            assert(fetch::has_text(e, text));
            Err(SpriteShrinkError::Parsing(ParsingError::TOCDecodeError(text)))
        },
    }
}

/// The bytes of a header: eight of magic number, then version and number of files
/// in four each, algorithm in two, hash type and format in one each, offset and
/// length of the table of contents in four each, all with the lowest byte first.
pub proof fn law_header_layout(bytes: Seq<u8>, h: FileHeader)
    requires
        is_header(bytes, h),
    ensures
        bytes.len() == 28,
        forall|i: int| 0 <= i < 8 ==> #[trigger] bytes[i] == h.magic_num@[i],
        h.file_version == bytes[8] + 256 * bytes[9] + 65536 * bytes[10] + 16777216 * bytes[11],
        h.file_count == bytes[12] + 256 * bytes[13] + 65536 * bytes[14] + 16777216 * bytes[15],
        h.algorithm == bytes[16] + 256 * bytes[17],
        h.hash_type == bytes[18],
        h.format_id == bytes[19],
        h.toc_offset == bytes[20] + 256 * bytes[21] + 65536 * bytes[22] + 16777216 * bytes[23],
        h.toc_length == bytes[24] + 256 * bytes[25] + 65536 * bytes[26] + 16777216 * bytes[27],
{
    assert forall|i: int| 0 <= i < 8 implies #[trigger] bytes[i] == h.magic_num@[i] by {
        assert(bytes[i] == bytes.subrange(0, 8)[i]);
    }
}

/// A header is refused for a foreign magic number and for a version that is too
/// new, and for nothing else.
pub proof fn law_foreign_headers_are_refused(
    bytes: Seq<u8>,
    r: Result<FileHeader, SpriteShrinkError>,
)
    requires
        bytes.len() == 28,
        checked_header(bytes, r),
    ensures
        r is Ok <==> bytes.subrange(0, 8) == MAGIC_NUMBER@ && bytes[8] + 256 * bytes[9] + 65536
            * bytes[10] + 16777216 * bytes[11] <= SUPPORTED_VERSION,
        r is Err && bytes.subrange(0, 8) == MAGIC_NUMBER@ ==> r->Err_0 == (
        SpriteShrinkError::Parsing(ParsingError::InvalidFileVersion())),
        r matches Err(SpriteShrinkError::Parsing(ParsingError::InvalidFileVersion()))
            ==> bytes.subrange(0, 8) == MAGIC_NUMBER@,
{
}

/// The number that eight bytes stand for, the lowest byte first.
pub open spec fn eight_bytes(b: Seq<u8>) -> int {
    b[0] + 256 * (b[1] + 256 * (b[2] + 256 * (b[3] + 256 * (b[4] + 256 * (b[5] + 256 * (b[6] + 256
        * b[7]))))))
}

/// The bytes of format data: offset and length of the manifest, of the dictionary
/// and of the chunk index, then the offset of the chunks, in eight bytes each.
pub proof fn law_format_data_layout(bytes: Seq<u8>, f: SSMCFormatData)
    requires
        is_format_data(bytes, f),
    ensures
        bytes.len() == 56,
        f.enc_manifest.offset == eight_bytes(bytes.subrange(0, 8)),
        f.enc_manifest.length == eight_bytes(bytes.subrange(8, 16)),
        f.data_dictionary.offset == eight_bytes(bytes.subrange(16, 24)),
        f.data_dictionary.length == eight_bytes(bytes.subrange(24, 32)),
        f.enc_chunk_index.offset == eight_bytes(bytes.subrange(32, 40)),
        f.enc_chunk_index.length == eight_bytes(bytes.subrange(40, 48)),
        f.data_offset == eight_bytes(bytes.subrange(48, 56)),
{
}

/// In a map made of entries every key has the value of its last entry.
pub proof fn law_last_entry_counts<H>(entries: Seq<(H, ChunkLocation)>, i: int)
    requires
        0 <= i < entries.len(),
        forall|j: int| i < j < entries.len() ==> (#[trigger] entries[j]).0 != entries[i].0,
    ensures
        map_of(entries).contains_key(entries[i].0),
        map_of(entries)[entries[i].0] == entries[i].1,
    decreases entries.len(),
{
    if i < entries.len() - 1 {
        let front = entries.drop_last();
        assert forall|j: int| i < j < front.len() implies (#[trigger] front[j]).0 != front[i].0 by {
            assert(front[j] == entries[j]);
        }
        law_last_entry_counts(front, i);
        assert(entries[entries.len() - 1].0 != entries[i].0);
    }
}

/// A map made of entries has no other keys than they.
pub proof fn law_only_entries_are_mapped<H>(entries: Seq<(H, ChunkLocation)>, key: H)
    requires
        map_of(entries).contains_key(key),
    ensures
        exists|i: int| 0 <= i < entries.len() && (#[trigger] entries[i]).0 == key,
    decreases entries.len(),
{
    if entries.len() > 0 {
        let front = entries.drop_last();
        if entries.last().0 == key {
            assert(entries[entries.len() - 1].0 == key);
        } else {
            law_only_entries_are_mapped(front, key);
            let i = choose|i: int| 0 <= i < front.len() && (#[trigger] front[i]).0 == key;
            assert(entries[i].0 == key);
        }
    }
}

/// A section that cannot be decoded is reported as what it is, and one that can be
/// is not refused.
pub proof fn law_undecodable_sections_are_reported<H: ArchiveHash>(
    bytes: Seq<u8>,
    manifests: Result<Vec<FileManifestParent<H>>, SpriteShrinkError>,
    index: Result<HashMap<H, ChunkLocation>, SpriteShrinkError>,
)
    requires
        manifest_outcome(bytes, manifests),
        index_outcome(bytes, index),
    ensures
        manifests is Ok <==> H::manifests_in(bytes) is Some,
        manifests matches Err(e) ==> e is Parsing && e->Parsing_0 is ManifestDecodeError,
        index is Ok <==> H::index_in(bytes) is Some,
        index matches Err(e) ==> e is Parsing && e->Parsing_0 is IndexDecodeError,
{
}

} // verus!
