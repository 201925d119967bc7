//! Laying out the chunks of an archive and its metadata.

use std::collections::{HashMap, HashSet};
use vstd::prelude::*;
use crate::archive;
use crate::error::{IsCancelled, SpriteShrinkError};
use crate::fetch;
use crate::hashing::Hashable;
use crate::parsing;
use crate::processing;
use crate::sorting;
use crate::sorting::{is_bytes_before, stable_sort, Ranked};
use crate::structs::{
    ChunkLocation, FileManifestParent, SSAChunkMeta, SSMCTocEntry, SerializedData,
};
use crate::text;

verus! {

/// Why an archive could not be laid out.
#[derive(Debug)]
pub enum SerializationError {
    MissingChunk(String),
    External(String),
    Cancelled,
    /// A size or a count outgrew 64 bits.
    Overflow,
}

// ---------------------------------------------------------------------------
// Concurrent maps
// ---------------------------------------------------------------------------

/// A hash map that threads can share.
#[verifier::external_type_specification]
#[verifier::external_body]
#[verifier::reject_recursive_types(K)]
#[verifier::reject_recursive_types(V)]
#[verifier::reject_recursive_types(S)]
pub struct ExDashMap<K, V, S>(dashmap::DashMap<K, V, S>);

/// `dashmap::DashMap::iter`, with each value cloned. Nothing is claimed of the
/// values: other threads may change the map meanwhile, and the order of the walk
/// is left open.
#[verifier::external_body]
fn walk_values<T: Eq + std::hash::Hash, R: Clone>(map: &dashmap::DashMap<T, R>) -> Vec<R> {
    map.iter().map(|entry| entry.value().clone()).collect()
}

/// Whether a walk of a shared map may come up with the given values.
pub closed spec fn may_give<T: Eq + std::hash::Hash, R: Clone>(
    map: &dashmap::DashMap<T, R>,
    values: Vec<R>,
) -> bool {
    call_ensures(walk_values::<T, R>, (map,), values)
}

/// `dashmap::DashMap::iter`, with each key and value cloned. A key belongs to
/// one shard for good, and a shard is walked once under its lock, so that no key
/// comes up twice. Nothing else is claimed of the entries: other threads may
/// change the map meanwhile, and the order of the walk is left open.
#[verifier::external_body]
fn walk_manifests<H: Clone>(map: &dashmap::DashMap<String, FileManifestParent<H>>) -> (entries: Vec<
    (String, FileManifestParent<H>),
>)
    ensures
        forall|i: int, j: int|
            0 <= i < j < entries@.len() ==> (#[trigger] entries@[i]).0@ != (
            #[trigger] entries@[j]).0@,
{
    map.iter().map(|entry| (entry.key().clone(), entry.value().clone())).collect()
}

/// Whether a walk of a shared map of manifests may come up with the given
/// entries.
pub closed spec fn may_list<H: Clone>(
    map: &dashmap::DashMap<String, FileManifestParent<H>>,
    entries: Vec<(String, FileManifestParent<H>)>,
) -> bool {
    call_ensures(walk_manifests::<H>, (map,), entries)
}

/// The values of a shared map, as a walk comes up with them.
pub fn dashmap_values_to_vec<T: Eq + std::hash::Hash, R: Clone>(
    input_dash: &dashmap::DashMap<T, R>,
) -> (values: Vec<R>)
    ensures
        may_give(input_dash, values),
{
    walk_values(input_dash)
}

// ---------------------------------------------------------------------------
// The chunk index
// ---------------------------------------------------------------------------

/// The bytes of a list of chunks.
pub open spec fn chunk_views(chunks: Seq<Vec<u8>>) -> Seq<Seq<u8>> {
    chunks.map_values(|c: Vec<u8>| c@)
}

/// Whether chunks were handed out for the first hashes, none of them empty.
pub open spec fn handed_out<H, E, D: Fn(&[H]) -> Result<Vec<Vec<u8>>, E>>(
    get: &D,
    hashes: Seq<H>,
    chunks: Seq<Vec<u8>>,
) -> bool {
    &&& chunks.len() <= hashes.len()
    &&& forall|i: int|
        0 <= i < chunks.len() ==> processing::hands_out(get, hashes[i], #[trigger] chunks[i])
            && chunks[i]@.len() > 0
}

/// Whether an index gives the places of the chunks handed out for all hashes,
/// one after the other.
pub open spec fn store_indexed<H, E, D: Fn(&[H]) -> Result<Vec<Vec<u8>>, E>>(
    index: Map<H, ChunkLocation>,
    get: &D,
    hashes: Seq<H>,
) -> bool {
    exists|chunks: Seq<Vec<u8>>| #[trigger]
        handed_out(get, hashes, chunks) && chunks.len() == hashes.len() && index
            == parsing::map_of(archive::layout(hashes, chunk_views(chunks))) && archive::frames_len(
            chunk_views(chunks),
            chunks.len() as int,
        ) <= u64::MAX
}

/// Whether chunks handed out for the first hashes are too much for 64 bits.
pub open spec fn store_too_large<H, E, D: Fn(&[H]) -> Result<Vec<Vec<u8>>, E>>(
    get: &D,
    hashes: Seq<H>,
) -> bool {
    exists|chunks: Seq<Vec<u8>>| #[trigger]
        handed_out(get, hashes, chunks) && archive::frames_len(
            chunk_views(chunks),
            chunks.len() as int,
        ) > u64::MAX
}

/// What indexing chunks yields.
pub open spec fn store_outcome<
    H: Hashable,
    E: std::fmt::Display,
    D: Fn(&[H]) -> Result<Vec<Vec<u8>>, E>,
>(r: Result<HashMap<H, ChunkLocation>, SerializationError>, get: &D, hashes: Seq<H>) -> bool {
    match r {
        Ok(index) => store_indexed(index@, get, hashes),
        Err(e) => store_failed(e, get, hashes),
    }
}

/// Whether indexing chunks may end with the given error.
pub open spec fn store_failed<
    H: Hashable,
    E: std::fmt::Display,
    D: Fn(&[H]) -> Result<Vec<Vec<u8>>, E>,
>(e: SerializationError, get: &D, hashes: Seq<H>) -> bool {
    match e {
        SerializationError::MissingChunk(m) => exists|
            chunks: Seq<Vec<u8>>,
            reply: Vec<Vec<u8>>,
        | #[trigger]
            handed_out(get, hashes, chunks) && chunks.len() < hashes.len() && #[trigger]
            fetch::answers(get, seq![hashes[chunks.len() as int]], reply) && (reply@.len() == 0
                || reply@[0]@.len() == 0) && m@ == text::decimal(
                hashes[chunks.len() as int].number(),
            ),
        SerializationError::External(m) => exists|chunks: Seq<Vec<u8>>, cause: E| #[trigger]
            handed_out(get, hashes, chunks) && chunks.len() < hashes.len() && #[trigger]
            fetch::refuses(get, seq![hashes[chunks.len() as int]], cause) && fetch::has_text(
                cause,
                m,
            ),
        SerializationError::Overflow => store_too_large(get, hashes),
        SerializationError::Cancelled => false,
    }
}

/// Finds out where each chunk will stand when chunks are stored one after the
/// other in the given order. A chunk that is not handed out, or handed out empty,
/// is missing.
pub fn serialize_store<D, E, H>(sorted_hashes: &[H], data_store_get_chunk_cb: &D) -> (r: Result<
    HashMap<H, ChunkLocation>,
    SerializationError,
>) where
    D: Fn(&[H]) -> Result<Vec<Vec<u8>>, E>,
    E: std::fmt::Display,
    H: Hashable,

    requires
        fetch::can_ask(data_store_get_chunk_cb),
    ensures
        store_outcome(r, data_store_get_chunk_cb, sorted_hashes@),
{
    broadcast use vstd::std_specs::hash::group_hash_axioms;

    proof {
        H::lemma_key_model();
    }
    let ghost hashes = sorted_hashes@;
    let ghost mut chunks: Seq<Vec<u8>> = Seq::empty();
    let mut index: HashMap<H, ChunkLocation> = HashMap::new();
    let mut offset: u64 = 0;
    let mut n: usize = 0;
    proof {
        assert(archive::layout(hashes, chunk_views(chunks)) =~= Seq::empty());
        assert(index@ =~= parsing::map_of(archive::layout(hashes, chunk_views(chunks))));
    }
    while n < sorted_hashes.len()
        invariant
            hashes == sorted_hashes@,
            n <= hashes.len(),
            chunks.len() == n,
            handed_out(data_store_get_chunk_cb, hashes, chunks),
            offset == archive::frames_len(chunk_views(chunks), n as int),
            index@ == parsing::map_of(archive::layout(hashes, chunk_views(chunks))),
            fetch::can_ask(data_store_get_chunk_cb),
                vstd::std_specs::hash::obeys_key_model::<H>(),
        decreases hashes.len() - n,
    {
        let hash = sorted_hashes[n];
        let request = [hash];
        assert(request@.subrange(0, 1) =~= seq![hash]);
        let mut reply = match fetch::ask(data_store_get_chunk_cb, request.as_slice(), 0, 1) {
            Ok(reply) => reply,
            Err(e) => {
                assert(fetch::refuses(data_store_get_chunk_cb, seq![hashes[n as int]], e));
                return Err(SerializationError::External(e.to_string()));
            },
        };
        assert(fetch::answers(data_store_get_chunk_cb, seq![hashes[n as int]], reply));
        if reply.len() == 0 || reply[0].len() == 0 {
            return Err(SerializationError::MissingChunk(hash.to_decimal()));
        }
        let chunk = reply.remove(0);
        assert(processing::hands_out(data_store_get_chunk_cb, hashes[n as int], chunk));
        let ghost before = chunks;
        proof {
            chunks = chunks.push(chunk);
            assert(chunk_views(chunks) =~= chunk_views(before).push(chunk@));
            archive::lemma_layout_push(hashes, chunk_views(before), chunk@);
            assert forall|i: int| 0 <= i < chunks.len() implies processing::hands_out(
                data_store_get_chunk_cb,
                hashes[i],
                #[trigger] chunks[i],
            ) && chunks[i]@.len() > 0 by {
                if i < n {
                    assert(chunks[i] == before[i]);
                }
            }
            assert(handed_out(data_store_get_chunk_cb, hashes, chunks));
        }
        let size: u64 = chunk.len() as u64;
        if size > u64::MAX - offset {
            return Err(SerializationError::Overflow);
        }
        index.insert(hash, ChunkLocation { offset, compressed_length: chunk.len() as u32 });
        proof {
            let old_layout = archive::layout(hashes, chunk_views(before));
            let new_layout = archive::layout(hashes, chunk_views(chunks));
            assert(new_layout.drop_last() =~= old_layout);
        }
        offset = offset + size;
        n += 1;
    }
    Ok(index)
}

/// In the index of distinct chunks, every chunk has the place that the layout
/// gives it.
pub proof fn law_index_gives_places<H>(hashes: Seq<H>, frames: Seq<Seq<u8>>, i: int)
    requires
        hashes.no_duplicates(),
        frames.len() == hashes.len(),
        0 <= i < hashes.len(),
    ensures
        parsing::map_of(archive::layout(hashes, frames)).contains_key(hashes[i]),
        parsing::map_of(archive::layout(hashes, frames))[hashes[i]] == archive::layout(
            hashes,
            frames,
        )[i].1,
{
    let all = archive::layout(hashes, frames);
    lemma_map_of(all, i);
}

proof fn lemma_map_of<H>(entries: Seq<(H, ChunkLocation)>, i: int)
    requires
        forall|a: int, b: int|
            0 <= a < b < entries.len() ==> (#[trigger] entries[a]).0 != (#[trigger] entries[b]).0,
        0 <= i < entries.len(),
    ensures
        parsing::map_of(entries).contains_key(entries[i].0),
        parsing::map_of(entries)[entries[i].0] == entries[i].1,
    decreases entries.len(),
{
    if i < entries.len() - 1 {
        let front = entries.drop_last();
        assert forall|a: int, b: int| 0 <= a < b < front.len() implies (#[trigger] front[a]).0 != (
        #[trigger] front[b]).0 by {
            assert(entries[a].0 != entries[b].0);
        }
        lemma_map_of(front, i);
        assert(front[i] == entries[i]);
        assert(entries[i].0 != entries[entries.len() - 1].0);
    }
}

// ---------------------------------------------------------------------------
// The order of files
// ---------------------------------------------------------------------------

impl<H> Ranked for (String, FileManifestParent<H>) {
    open spec fn before(self, other: Self) -> bool {
        sorting::bytes_before(
            vstd::utf8::encode_utf8(self.0@),
            vstd::utf8::encode_utf8(other.0@),
        )
    }

    fn is_before(&self, other: &Self) -> (yes: bool) {
        is_bytes_before(self.0.as_str().as_bytes(), other.0.as_str().as_bytes())
    }

    proof fn lemma_asymmetric(a: Self, b: Self) {
        sorting::lemma_bytes_asymmetric(
            vstd::utf8::encode_utf8(a.0@),
            vstd::utf8::encode_utf8(b.0@),
        );
    }

    proof fn lemma_between(a: Self, b: Self, c: Self) {
        sorting::lemma_bytes_between(
            vstd::utf8::encode_utf8(a.0@),
            vstd::utf8::encode_utf8(b.0@),
            vstd::utf8::encode_utf8(c.0@),
        );
    }
}

impl<H> Ranked for SSAChunkMeta<H> {
    open spec fn before(self, other: Self) -> bool {
        self.offset < other.offset
    }

    fn is_before(&self, other: &Self) -> (yes: bool) {
        self.offset < other.offset
    }

    proof fn lemma_asymmetric(a: Self, b: Self) {
    }

    proof fn lemma_between(a: Self, b: Self, c: Self) {
    }
}

/// Where a file ends according to the last entry of its manifest.
pub open spec fn file_end<H>(meta: Seq<SSAChunkMeta<H>>) -> int {
    if meta.len() == 0 {
        0
    } else {
        meta.last().offset + meta.last().length
    }
}

/// Whether an entry of the table of contents and a manifest are made of the
/// given file: same name, size up to the end of the last chunk listed, chunks in
/// the order of their offsets.
pub open spec fn is_listed<H>(
    file: (String, FileManifestParent<H>),
    toc: SSMCTocEntry,
    manifest: FileManifestParent<H>,
) -> bool {
    &&& toc.filename@ == file.0@
    &&& toc.uncompressed_size == file_end(file.1.chunk_metadata@)
    &&& manifest.chunk_count == file.1.chunk_count
    &&& sorting::stably_sorted(file.1.chunk_metadata@, manifest.chunk_metadata@)
}

/// Whether a table of contents and a list of manifests are made of the given
/// files, in the order of their names.
pub open spec fn listed<H>(
    files: Seq<(String, FileManifestParent<H>)>,
    toc: Seq<SSMCTocEntry>,
    manifests: Seq<FileManifestParent<H>>,
) -> bool {
    exists|sorted: Seq<(String, FileManifestParent<H>)>| #[trigger]
        sorting::stably_sorted(files, sorted) && lists(sorted, toc, manifests)
}

/// Whether a table of contents and a list of manifests are made of the given
/// files, in that order.
pub open spec fn lists<H>(
    files: Seq<(String, FileManifestParent<H>)>,
    toc: Seq<SSMCTocEntry>,
    manifests: Seq<FileManifestParent<H>>,
) -> bool {
    &&& toc.len() == files.len()
    &&& manifests.len() == files.len()
    &&& forall|i: int|
        0 <= i < files.len() ==> is_listed(#[trigger] files[i], toc[i], manifests[i])
}

/// Lists files in the order of their names.
fn list_files<H>(entries: Vec<(String, FileManifestParent<H>)>) -> (r: Result<
    (Vec<SSMCTocEntry>, Vec<FileManifestParent<H>>),
    SerializationError,
>)
    ensures
        match r {
            Ok(lists) => listed(entries@, lists.0@, lists.1@),
            Err(e) => e is Overflow && exists|i: int|
                0 <= i < entries@.len() && file_end((#[trigger] entries@[i]).1.chunk_metadata@)
                    > u64::MAX,
        },
{
    let ghost given = entries@;
    let mut files = entries;
    stable_sort(&mut files);
    let ghost sorted = files@;
    let mut toc: Vec<SSMCTocEntry> = Vec::with_capacity(files.len());
    let mut manifests: Vec<FileManifestParent<H>> = Vec::with_capacity(files.len());
    let ghost mut done: int = 0;
    for file in it: files
        invariant
            it.seq() == sorted,
            given == entries@,
            done == it.index(),
            sorting::stably_sorted(given, sorted),
            toc@.len() == it.index(),
            manifests@.len() == it.index(),
            forall|i: int|
                0 <= i < it.index() ==> is_listed(#[trigger] sorted[i], toc@[i], manifests@[i]),
    {
        let ghost at = done;
        assert(file == sorted[at]);
        let (filename, manifest) = file;
        let mut chunk_metadata = manifest.chunk_metadata;
        let count: usize = chunk_metadata.len();
        let size: u64 = if count > 0 {
            let offset: u64 = chunk_metadata[count - 1].offset;
            let length: u64 = chunk_metadata[count - 1].length as u64;
            if length > u64::MAX - offset {
                proof {
                    lemma_same_members(given, sorted, at);
                }
                return Err(SerializationError::Overflow);
            }
            offset + length
        } else {
            0
        };
        toc.push(SSMCTocEntry { filename, uncompressed_size: size });
        stable_sort(&mut chunk_metadata);
        manifests.push(FileManifestParent { chunk_count: manifest.chunk_count, chunk_metadata });
        proof {
            done = done + 1;
            assert(is_listed(sorted[at], toc@[at], manifests@[at]));
        }
    }
    Ok((toc, manifests))
}

/// What stands in a sorted sequence stands in the given one.
proof fn lemma_same_members<T: Ranked>(given: Seq<T>, sorted: Seq<T>, i: int)
    requires
        sorting::stably_sorted(given, sorted),
        0 <= i < sorted.len(),
    ensures
        exists|j: int| 0 <= j < given.len() && #[trigger] given[j] == sorted[i],
{
    broadcast use vstd::seq_lib::group_to_multiset_ensures;

    assert(sorted.contains(sorted[i]));
    assert(sorted.to_multiset().count(sorted[i]) > 0);
    assert(given.to_multiset().count(sorted[i]) > 0);
    assert(given.contains(sorted[i]));
}

// ---------------------------------------------------------------------------
// The order of chunks
// ---------------------------------------------------------------------------

/// How often a hash occurs among the first `n` chunks of a manifest.
pub open spec fn occurrences<H>(meta: Seq<SSAChunkMeta<H>>, n: int, hash: H) -> int
    decreases n,
{
    if n <= 0 {
        0
    } else {
        occurrences(meta, n - 1, hash) + if meta[n - 1].hash == hash {
            1int
        } else {
            0
        }
    }
}

/// How often a hash occurs in the first `n` manifests.
pub open spec fn frequency<H>(manifests: Seq<FileManifestParent<H>>, n: int, hash: H) -> int
    decreases n,
{
    if n <= 0 {
        0
    } else {
        frequency(manifests, n - 1, hash) + occurrences(
            manifests[n - 1].chunk_metadata@,
            manifests[n - 1].chunk_metadata@.len() as int,
            hash,
        )
    }
}

/// How often the first `n` chunks of a manifest occur in all manifests, added
/// up.
pub open spec fn score<H>(
    manifests: Seq<FileManifestParent<H>>,
    meta: Seq<SSAChunkMeta<H>>,
    n: int,
) -> int
    decreases n,
{
    if n <= 0 {
        0
    } else {
        score(manifests, meta, n - 1) + frequency(
            manifests,
            manifests.len() as int,
            meta[n - 1].hash,
        )
    }
}

/// The score of the `i`th manifest.
pub open spec fn file_score<H>(manifests: Seq<FileManifestParent<H>>, i: int) -> int {
    score(manifests, manifests[i].chunk_metadata@, manifests[i].chunk_metadata@.len() as int)
}

/// A file by its place in the list, with its score.
#[derive(Clone, Copy, Debug, PartialEq, Eq, Structural)]
pub struct ScoredFile {
    pub index: usize,
    pub score: u64,
}

impl Ranked for ScoredFile {
    open spec fn before(self, other: Self) -> bool {
        self.score > other.score
    }

    fn is_before(&self, other: &Self) -> (yes: bool) {
        self.score > other.score
    }

    proof fn lemma_asymmetric(a: Self, b: Self) {
    }

    proof fn lemma_between(a: Self, b: Self, c: Self) {
    }
}

/// All files with their scores, in the order of the list.
pub open spec fn scored<H>(manifests: Seq<FileManifestParent<H>>) -> Seq<ScoredFile> {
    Seq::new(
        manifests.len(),
        |i: int| ScoredFile { index: i as usize, score: file_score(manifests, i) as u64 },
    )
}

/// The hashes of the first `n` ranked files, end to end.
pub open spec fn ranked_hashes<H>(
    manifests: Seq<FileManifestParent<H>>,
    ranking: Seq<ScoredFile>,
    n: int,
) -> Seq<H>
    decreases n,
{
    if n <= 0 {
        Seq::empty()
    } else {
        ranked_hashes(manifests, ranking, n - 1) + processing::manifest_hashes(
            manifests[ranking[n - 1].index as int].chunk_metadata@,
        )
    }
}

/// A sequence without what has come before.
pub open spec fn first_seen<H>(s: Seq<H>) -> Seq<H>
    decreases s.len(),
{
    if s.len() == 0 {
        Seq::empty()
    } else {
        let front = first_seen(s.drop_last());
        if front.contains(s.last()) {
            front
        } else {
            front.push(s.last())
        }
    }
}

/// Whether chunks are ordered file by file, files with the most shared chunks
/// first, each chunk where it first occurs.
pub open spec fn chunk_order<H>(manifests: Seq<FileManifestParent<H>>, hashes: Seq<H>) -> bool {
    exists|ranking: Seq<ScoredFile>| #[trigger]
        sorting::stably_sorted(scored(manifests), ranking) && hashes == first_seen(
            ranked_hashes(manifests, ranking, ranking.len() as int),
        )
}

/// The count that a table holds for a hash.
pub open spec fn counted<H>(table: Map<H, u64>, hash: H) -> int {
    if table.contains_key(hash) {
        table[hash] as int
    } else {
        0
    }
}

/// Whether some hash occurs too often, or some file's score is too high, for 64
/// bits.
pub open spec fn counts_too_large<H>(manifests: Seq<FileManifestParent<H>>) -> bool {
    exists|n: int, k: int|
        0 <= n < manifests.len() && 0 <= k <= manifests[n].chunk_metadata@.len()
            && #[trigger] score(manifests, manifests[n].chunk_metadata@, k) > u64::MAX
}

proof fn lemma_occurrences_grow<H>(meta: Seq<SSAChunkMeta<H>>, m: int, n: int, hash: H)
    requires
        0 <= m <= n,
    ensures
        0 <= occurrences(meta, m, hash) <= occurrences(meta, n, hash),
    decreases n,
{
    if m < n {
        lemma_occurrences_grow(meta, m, n - 1, hash);
    } else if m > 0 {
        lemma_occurrences_grow(meta, m - 1, n - 1, hash);
    }
}

proof fn lemma_frequency_grows<H>(
    manifests: Seq<FileManifestParent<H>>,
    m: int,
    n: int,
    hash: H,
)
    requires
        0 <= m <= n,
    ensures
        0 <= frequency(manifests, m, hash) <= frequency(manifests, n, hash),
    decreases n,
{
    if n > 0 {
        lemma_occurrences_grow(
            manifests[n - 1].chunk_metadata@,
            0,
            manifests[n - 1].chunk_metadata@.len() as int,
            hash,
        );
        if m < n {
            lemma_frequency_grows(manifests, m, n - 1, hash);
        } else {
            lemma_frequency_grows(manifests, m - 1, n - 1, hash);
        }
    }
}

proof fn lemma_score_grows<H>(
    manifests: Seq<FileManifestParent<H>>,
    meta: Seq<SSAChunkMeta<H>>,
    m: int,
    n: int,
)
    requires
        0 <= m <= n,
    ensures
        0 <= score(manifests, meta, m) <= score(manifests, meta, n),
    decreases n,
{
    if n > 0 {
        lemma_frequency_grows(manifests, 0, manifests.len() as int, meta[n - 1].hash);
        if m < n {
            lemma_score_grows(manifests, meta, m, n - 1);
        } else {
            lemma_score_grows(manifests, meta, m - 1, n - 1);
        }
    }
}

/// A hash that occurs too often makes the score of a file too high.
proof fn lemma_count_too_large<H>(manifests: Seq<FileManifestParent<H>>, n: int, k: int)
    requires
        0 <= n < manifests.len(),
        0 <= k < manifests[n].chunk_metadata@.len(),
        frequency(manifests, manifests.len() as int, manifests[n].chunk_metadata@[k].hash)
            > u64::MAX,
    ensures
        counts_too_large(manifests),
{
    let meta = manifests[n].chunk_metadata@;
    lemma_score_grows(manifests, meta, 0, k);
    assert(score(manifests, meta, k + 1) > u64::MAX);
}

/// Counts how often each hash occurs.
fn count_chunks<H: Hashable>(manifests: &Vec<FileManifestParent<H>>) -> (r: Result<
    HashMap<H, u64>,
    SerializationError,
>)
    ensures
        match r {
            Ok(table) => forall|hash: H| #[trigger]
                counted(table@, hash) == frequency(manifests@, manifests@.len() as int, hash),
            Err(e) => e is Overflow && counts_too_large(manifests@),
        },
{
    broadcast use vstd::std_specs::hash::group_hash_axioms;

    proof {
        H::lemma_key_model();
    }
    let mut table: HashMap<H, u64> = HashMap::new();
    let mut n: usize = 0;
    while n < manifests.len()
        invariant
            n <= manifests@.len(),
            vstd::std_specs::hash::obeys_key_model::<H>(),
            forall|hash: H| #[trigger]
                counted(table@, hash) == frequency(manifests@, n as int, hash),
        decreases manifests@.len() - n,
    {
        let ghost meta = manifests@[n as int].chunk_metadata@;
        let mut k: usize = 0;
        while k < manifests[n].chunk_metadata.len()
            invariant
                n < manifests@.len(),
                meta == manifests@[n as int].chunk_metadata@,
                k <= meta.len(),
                vstd::std_specs::hash::obeys_key_model::<H>(),
                forall|hash: H| #[trigger]
                    counted(table@, hash) == frequency(manifests@, n as int, hash) + occurrences(
                        meta,
                        k as int,
                        hash,
                    ),
            decreases meta.len() - k,
        {
            let hash = manifests[n].chunk_metadata[k].hash;
            let count: u64 = match table.get(&hash) {
                Some(count) => *count,
                None => 0,
            };
            assert(count == counted(table@, hash));
            if count == u64::MAX {
                proof {
                    lemma_occurrences_grow(meta, k + 1, meta.len() as int, hash);
                    lemma_frequency_grows(manifests@, n + 1, manifests@.len() as int, hash);
                    lemma_count_too_large(manifests@, n as int, k as int);
                }
                return Err(SerializationError::Overflow);
            }
            let ghost before = table@;
            table.insert(hash, count + 1);
            assert forall|h: H| #[trigger] counted(table@, h) == frequency(
                manifests@,
                n as int,
                h,
            ) + occurrences(meta, k + 1, h) by {
                assert(counted(before, h) == frequency(manifests@, n as int, h) + occurrences(
                    meta,
                    k as int,
                    h,
                ));
            }
            k += 1;
        }
        n += 1;
    }
    Ok(table)
}

/// Scores all files.
fn score_files<H: Hashable>(manifests: &Vec<FileManifestParent<H>>) -> (r: Result<
    Vec<ScoredFile>,
    SerializationError,
>)
    ensures
        match r {
            Ok(files) => files@ == scored(manifests@) && forall|i: int|
                0 <= i < manifests@.len() ==> #[trigger] file_score(manifests@, i) <= u64::MAX,
            Err(e) => e is Overflow && counts_too_large(manifests@),
        },
{
    broadcast use vstd::std_specs::hash::group_hash_axioms;

    proof {
        H::lemma_key_model();
    }
    let table = match count_chunks(manifests) {
        Ok(table) => table,
        Err(e) => return Err(e),
    };
    let mut files: Vec<ScoredFile> = Vec::with_capacity(manifests.len());
    let mut n: usize = 0;
    while n < manifests.len()
        invariant
            n <= manifests@.len(),
            vstd::std_specs::hash::obeys_key_model::<H>(),
            forall|hash: H| #[trigger]
                counted(table@, hash) == frequency(manifests@, manifests@.len() as int, hash),
            files@ =~= scored(manifests@).take(n as int),
            forall|i: int| 0 <= i < n ==> #[trigger] file_score(manifests@, i) <= u64::MAX,
        decreases manifests@.len() - n,
    {
        let ghost meta = manifests@[n as int].chunk_metadata@;
        let mut total: u64 = 0;
        let mut k: usize = 0;
        while k < manifests[n].chunk_metadata.len()
            invariant
                n < manifests@.len(),
                meta == manifests@[n as int].chunk_metadata@,
                k <= meta.len(),
                vstd::std_specs::hash::obeys_key_model::<H>(),
                forall|hash: H| #[trigger]
                    counted(table@, hash) == frequency(manifests@, manifests@.len() as int, hash),
                total == score(manifests@, meta, k as int),
            decreases meta.len() - k,
        {
            let hash = manifests[n].chunk_metadata[k].hash;
            let count: u64 = match table.get(&hash) {
                Some(count) => *count,
                None => 0,
            };
            assert(count == counted(table@, hash));
            if count > u64::MAX - total {
                assert(score(manifests@, meta, k + 1) > u64::MAX);
                return Err(SerializationError::Overflow);
            }
            total = total + count;
            k += 1;
        }
        assert(total == file_score(manifests@, n as int));
        files.push(ScoredFile { index: n, score: total });
        n += 1;
    }
    assert(files@ =~= scored(manifests@));
    Ok(files)
}

/// Lists the hashes of all chunks in the order of the ranking.
fn order_chunks<H: Hashable>(
    manifests: &Vec<FileManifestParent<H>>,
    ranking: &Vec<ScoredFile>,
) -> (hashes: Vec<H>)
    requires
        forall|i: int|
            0 <= i < ranking@.len() ==> (#[trigger] ranking@[i]).index < manifests@.len(),
    ensures
        hashes@ == first_seen(ranked_hashes(manifests@, ranking@, ranking@.len() as int)),
{
    broadcast use vstd::std_specs::hash::group_hash_axioms;

    proof {
        H::lemma_key_model();
    }
    let mut hashes: Vec<H> = Vec::new();
    let mut seen: HashSet<H> = HashSet::new();
    let mut n: usize = 0;
    proof {
        assert(first_seen(ranked_hashes(manifests@, ranking@, 0)) =~= Seq::empty());
        assert(seen@ =~= hashes@.to_set());
    }
    while n < ranking.len()
        invariant
            n <= ranking@.len(),
            vstd::std_specs::hash::obeys_key_model::<H>(),
            forall|i: int|
                0 <= i < ranking@.len() ==> (#[trigger] ranking@[i]).index < manifests@.len(),
            hashes@ == first_seen(ranked_hashes(manifests@, ranking@, n as int)),
            forall|h: H| #[trigger] seen@.contains(h) <==> hashes@.contains(h),
        decreases ranking@.len() - n,
    {
        let at: usize = ranking[n].index;
        let ghost front = ranked_hashes(manifests@, ranking@, n as int);
        let ghost more = processing::manifest_hashes(manifests@[at as int].chunk_metadata@);
        let mut k: usize = 0;
        assert(front + more.take(0) =~= front);
        while k < manifests[at].chunk_metadata.len()
            invariant
                at < manifests@.len(),
                vstd::std_specs::hash::obeys_key_model::<H>(),
                more == processing::manifest_hashes(manifests@[at as int].chunk_metadata@),
                k <= more.len(),
                hashes@ == first_seen(front + more.take(k as int)),
                forall|h: H| #[trigger] seen@.contains(h) <==> hashes@.contains(h),
            decreases more.len() - k,
        {
            let hash = manifests[at].chunk_metadata[k].hash;
            let ghost before = hashes@;
            let ghost longer = front + more.take(k + 1);
            assert(longer.drop_last() =~= front + more.take(k as int));
            assert(longer.last() == hash);
            if seen.insert(hash) {
                hashes.push(hash);
                assert forall|h: H| #[trigger] seen@.contains(h) <==> hashes@.contains(h) by {
                    if h == hash {
                        assert(hashes@[before.len() as int] == h);
                    } else if before.contains(h) {
                        let j = choose|j: int| 0 <= j < before.len() && before[j] == h;
                        assert(hashes@[j] == h);
                    } else if hashes@.contains(h) {
                        let j = choose|j: int| 0 <= j < hashes@.len() && hashes@[j] == h;
                        assert(j < before.len());
                        assert(before[j] == h);
                    }
                }
            }
            k += 1;
        }
        assert(more.take(k as int) =~= more);
        n += 1;
    }
    hashes
}

/// Whether a callback may answer with a list of hashes.
pub open spec fn lists_hashes<H, E, K: Fn() -> Result<Vec<H>, E>>(keys: &K) -> bool {
    exists|hashes: Vec<H>| #[trigger] call_ensures(*keys, (), Ok::<Vec<H>, E>(hashes))
}

/// Whether laid-out data fits the given files.
pub open spec fn laid_out<H: Hashable, E, D: Fn(&[H]) -> Result<Vec<Vec<u8>>, E>>(
    data: SerializedData<H>,
    files: Seq<(String, FileManifestParent<H>)>,
    get: &D,
) -> bool {
    &&& listed(files, data.archive_toc@, data.ser_file_manifest@)
    &&& chunk_order(data.ser_file_manifest@, data.sorted_hashes@)
    &&& store_indexed(data.chunk_index@, get, data.sorted_hashes@)
}

/// Whether a size or a count in the given files is too much for 64 bits.
pub open spec fn files_too_large<H>(files: Seq<(String, FileManifestParent<H>)>) -> bool {
    ||| exists|i: int|
        0 <= i < files.len() && file_end((#[trigger] files[i]).1.chunk_metadata@) > u64::MAX
    ||| exists|toc: Seq<SSMCTocEntry>, manifests: Seq<FileManifestParent<H>>| #[trigger]
        listed(files, toc, manifests) && counts_too_large(manifests)
}

/// Whether indexing the chunks of the given files may end with the given error.
pub open spec fn layout_failed<
    H: Hashable,
    E: std::fmt::Display,
    D: Fn(&[H]) -> Result<Vec<Vec<u8>>, E>,
>(
    e: SerializationError,
    files: Seq<(String, FileManifestParent<H>)>,
    get: &D,
) -> bool {
    exists|toc: Seq<SSMCTocEntry>, manifests: Seq<FileManifestParent<H>>, hashes: Seq<H>| #[trigger]
        listed(files, toc, manifests) && #[trigger] chunk_order(manifests, hashes) && store_failed(
            e,
            get,
            hashes,
        )
}

/// What laying out an archive yields.
pub open spec fn layout_outcome<
    H: Hashable,
    E: IsCancelled + std::fmt::Display,
    D: Fn(&[H]) -> Result<Vec<Vec<u8>>, E>,
    K: Fn() -> Result<Vec<H>, E>,
>(
    r: Result<SerializedData<H>, SpriteShrinkError>,
    files: Seq<(String, FileManifestParent<H>)>,
    keys: &K,
    get: &D,
) -> bool {
    match r {
        Ok(data) => laid_out(data, files, get) && lists_hashes(keys),
        Err(SpriteShrinkError::Cancelled) => exists|e: E| #[trigger]
            call_ensures(*keys, (), Err::<Vec<H>, E>(e)) && fetch::stands_for_stop(e),
        Err(SpriteShrinkError::External(m)) => exists|e: E| #[trigger]
            call_ensures(*keys, (), Err::<Vec<H>, E>(e)) && fetch::stands_for_failure(e, m),
        Err(SpriteShrinkError::Serialization(e)) => (layout_failed(e, files, get) && lists_hashes(
            keys,
        )) || (e is Overflow && files_too_large(files)),
        _ => false,
    }
}

/// Lays out an archive of the given files: the table of contents and the
/// manifests in the order of the file names, the chunks of each file in the
/// order of their offsets, all distinct chunks in the order that they are to be
/// stored in, and the place of each.
pub fn serialize_files<D, E, H, K>(
    files: Vec<(String, FileManifestParent<H>)>,
    data_store_key_cb: &K,
    data_store_get_chunk_cb: &D,
) -> (r: Result<SerializedData<H>, SpriteShrinkError>) where
    D: Fn(&[H]) -> Result<Vec<Vec<u8>>, E>,
    E: IsCancelled + std::fmt::Display,
    H: Hashable,
    K: Fn() -> Result<Vec<H>, E>,

    requires
        fetch::can_ask(data_store_get_chunk_cb),
        call_requires(*data_store_key_cb, ()),
    ensures
        layout_outcome(r, files@, data_store_key_cb, data_store_get_chunk_cb),
{
    let ghost given = files@;
    let (toc, manifests) = match list_files(files) {
        Ok(lists) => lists,
        Err(e) => return Err(SpriteShrinkError::Serialization(e)),
    };
    let mut ranking = match score_files(&manifests) {
        Ok(scores) => scores,
        Err(e) => {
            assert(listed(given, toc@, manifests@));
            return Err(SpriteShrinkError::Serialization(e));
        },
    };
    let ghost scores = ranking@;
    stable_sort(&mut ranking);
    match data_store_key_cb() {
        Ok(_) => {
            assert(lists_hashes(data_store_key_cb));
        },
        Err(e) => {
            if e.is_cancelled() {
                return Err(SpriteShrinkError::Cancelled);
            }
            return Err(SpriteShrinkError::External(e.to_string()));
        },
    }
    assert forall|i: int| 0 <= i < ranking@.len() implies (#[trigger] ranking@[i]).index
        < manifests@.len() by {
        lemma_same_members(scores, ranking@, i);
    }
    let sorted_hashes = order_chunks(&manifests, &ranking);
    assert(chunk_order(manifests@, sorted_hashes@));
    let chunk_index = match serialize_store(sorted_hashes.as_slice(), data_store_get_chunk_cb) {
        Ok(index) => index,
        Err(e) => {
            assert(listed(given, toc@, manifests@) && chunk_order(manifests@, sorted_hashes@));
            assert(layout_failed(e, given, data_store_get_chunk_cb));
            return Err(SpriteShrinkError::Serialization(e));
        },
    };
    Ok(
        SerializedData {
            ser_file_manifest: manifests,
            archive_toc: toc,
            chunk_index,
            sorted_hashes,
        },
    )
}

/// Whether laying out the files of a shared map may yield the given outcome: for
/// some walk of the map, it is that of laying out the files that came up.
pub open spec fn map_layout_outcome<
    H: Hashable,
    E: IsCancelled + std::fmt::Display,
    D: Fn(&[H]) -> Result<Vec<Vec<u8>>, E>,
    K: Fn() -> Result<Vec<H>, E>,
>(
    r: Result<SerializedData<H>, SpriteShrinkError>,
    map: &dashmap::DashMap<String, FileManifestParent<H>>,
    keys: &K,
    get: &D,
) -> bool {
    exists|files: Vec<(String, FileManifestParent<H>)>| #[trigger]
        may_list(map, files) && layout_outcome(r, files@, keys, get) && forall|i: int, j: int|
            0 <= i < j < files@.len() ==> (#[trigger] files@[i]).0@ != (#[trigger] files@[j]).0@
}

/// Lays out an archive of the files in a shared map, whatever order the map is
/// walked in.
pub fn serialize_uncompressed_data<D, E, H, K>(
    file_manifest: &dashmap::DashMap<String, FileManifestParent<H>>,
    data_store_key_cb: &K,
    data_store_get_chunk_cb: &D,
) -> (r: Result<SerializedData<H>, SpriteShrinkError>) where
    D: Fn(&[H]) -> Result<Vec<Vec<u8>>, E>,
    E: IsCancelled + std::fmt::Display,
    H: Hashable,
    K: Fn() -> Result<Vec<H>, E>,

    requires
        fetch::can_ask(data_store_get_chunk_cb),
        call_requires(*data_store_key_cb, ()),
    ensures
        map_layout_outcome(r, file_manifest, data_store_key_cb, data_store_get_chunk_cb),
{
    let entries = walk_manifests(file_manifest);
    let ghost files = entries;
    let r = serialize_files(entries, data_store_key_cb, data_store_get_chunk_cb);
    assert(may_list(file_manifest, files));
    r
}

// ---------------------------------------------------------------------------
// What a layout promises
// ---------------------------------------------------------------------------

/// What is first seen is seen once, and all that is there is seen.
proof fn lemma_first_seen<H>(s: Seq<H>)
    ensures
        first_seen(s).no_duplicates(),
        forall|h: H| #[trigger] first_seen(s).contains(h) <==> s.contains(h),
    decreases s.len(),
{
    if s.len() > 0 {
        let front = s.drop_last();
        let seen = first_seen(front);
        let x = s.last();
        lemma_first_seen(front);
        assert forall|h: H| #[trigger] first_seen(s).contains(h) <==> s.contains(h) by {
            if front.contains(h) {
                let j = choose|j: int| 0 <= j < front.len() && front[j] == h;
                assert(s[j] == h);
                assert(seen.contains(h));
                let i = choose|i: int| 0 <= i < seen.len() && seen[i] == h;
                assert(first_seen(s)[i] == h);
            }
            if s.contains(h) && h != x {
                let j = choose|j: int| 0 <= j < s.len() && s[j] == h;
                assert(front[j] == h);
            }
            if h == x {
                assert(s[s.len() - 1] == h);
                if !seen.contains(x) {
                    assert(first_seen(s)[seen.len() as int] == h);
                }
            }
            if first_seen(s).contains(h) && h != x {
                let j = choose|j: int| 0 <= j < first_seen(s).len() && first_seen(s)[j] == h;
                assert(seen[j] == h);
                assert(seen.contains(h));
            }
        }
    }
}

/// Whether a hash occurs in some manifest.
pub open spec fn occurs<H>(manifests: Seq<FileManifestParent<H>>, hash: H) -> bool {
    exists|i: int, k: int|
        0 <= i < manifests.len() && 0 <= k < manifests[i].chunk_metadata@.len() && (
        #[trigger] manifests[i].chunk_metadata@[k]).hash == hash
}

proof fn lemma_ranked_hashes<H>(
    manifests: Seq<FileManifestParent<H>>,
    ranking: Seq<ScoredFile>,
    n: int,
    hash: H,
)
    requires
        0 <= n <= ranking.len(),
    ensures
        ranked_hashes(manifests, ranking, n).contains(hash) <==> exists|r: int, k: int|
            0 <= r < n && 0 <= k < manifests[ranking[r].index as int].chunk_metadata@.len() && (
            #[trigger] manifests[ranking[r].index as int].chunk_metadata@[k]).hash == hash,
    decreases n,
{
    if n > 0 {
        lemma_ranked_hashes(manifests, ranking, n - 1, hash);
        let front = ranked_hashes(manifests, ranking, n - 1);
        let meta = manifests[ranking[n - 1].index as int].chunk_metadata@;
        let more = processing::manifest_hashes(meta);
        let all = ranked_hashes(manifests, ranking, n);
        if all.contains(hash) {
            let j = choose|j: int| 0 <= j < all.len() && all[j] == hash;
            if j < front.len() {
                assert(front[j] == hash);
                assert(front.contains(hash));
            } else {
                assert(meta[j - front.len()].hash == hash);
                assert(manifests[ranking[n - 1].index as int].chunk_metadata@[j
                    - front.len()].hash == hash);
            }
        }
        if exists|r: int, k: int|
            0 <= r < n && 0 <= k < manifests[ranking[r].index as int].chunk_metadata@.len() && (
            #[trigger] manifests[ranking[r].index as int].chunk_metadata@[k]).hash == hash {
            let (r, k) = choose|r: int, k: int|
                0 <= r < n && 0 <= k < manifests[ranking[r].index as int].chunk_metadata@.len() && (
                #[trigger] manifests[ranking[r].index as int].chunk_metadata@[k]).hash == hash;
            if r < n - 1 {
                assert(front.contains(hash));
                let j = choose|j: int| 0 <= j < front.len() && front[j] == hash;
                assert(all[j] == hash);
            } else {
                assert(all[front.len() + k] == hash);
            }
        }
    }
}

/// The order of chunks holds every chunk of every file, and each of them once.
pub proof fn law_chunk_order_is_complete<H>(
    manifests: Seq<FileManifestParent<H>>,
    hashes: Seq<H>,
    hash: H,
)
    requires
        manifests.len() <= usize::MAX,
        chunk_order(manifests, hashes),
    ensures
        hashes.no_duplicates(),
        hashes.contains(hash) <==> occurs(manifests, hash),
{
    broadcast use vstd::seq_lib::group_to_multiset_ensures;

    let ranking = choose|ranking: Seq<ScoredFile>| #[trigger]
        sorting::stably_sorted(scored(manifests), ranking) && hashes == first_seen(
            ranked_hashes(manifests, ranking, ranking.len() as int),
        );
    let all = ranked_hashes(manifests, ranking, ranking.len() as int);
    lemma_first_seen(all);
    lemma_ranked_hashes(manifests, ranking, ranking.len() as int, hash);
    assert(hashes.contains(hash) <==> all.contains(hash));
    if all.contains(hash) {
        let (r, k) = choose|r: int, k: int|
            0 <= r < ranking.len() && 0 <= k
                < manifests[ranking[r].index as int].chunk_metadata@.len() && (
            #[trigger] manifests[ranking[r].index as int].chunk_metadata@[k]).hash == hash;
        lemma_same_members(scored(manifests), ranking, r);
        assert(occurs(manifests, hash));
    }
    if occurs(manifests, hash) {
        let (i, k) = choose|i: int, k: int|
            0 <= i < manifests.len() && 0 <= k < manifests[i].chunk_metadata@.len() && (
            #[trigger] manifests[i].chunk_metadata@[k]).hash == hash;
        let file = scored(manifests)[i];
        assert(scored(manifests).contains(file));
        assert(scored(manifests).to_multiset().count(file) > 0);
        assert(ranking.to_multiset().count(file) > 0);
        assert(ranking.contains(file));
        let r = choose|r: int| 0 <= r < ranking.len() && ranking[r] == file;
        assert(manifests[ranking[r].index as int].chunk_metadata@[k].hash == hash);
    }
}

/// In a table of contents no name comes before the one above it.
pub proof fn law_names_ascend<H>(
    files: Seq<(String, FileManifestParent<H>)>,
    toc: Seq<SSMCTocEntry>,
    manifests: Seq<FileManifestParent<H>>,
    i: int,
    j: int,
)
    requires
        listed(files, toc, manifests),
        0 <= i < j < toc.len(),
    ensures
        !sorting::bytes_before(
            vstd::utf8::encode_utf8(toc[j].filename@),
            vstd::utf8::encode_utf8(toc[i].filename@),
        ),
{
    let sorted = choose|sorted: Seq<(String, FileManifestParent<H>)>| #[trigger]
        sorting::stably_sorted(files, sorted) && lists(sorted, toc, manifests);
    assert(is_listed(sorted[i], toc[i], manifests[i]));
    assert(is_listed(sorted[j], toc[j], manifests[j]));
    assert(!sorted[j].before(sorted[i]));
}

/// In every manifest of a layout the chunks stand in the order of their offsets.
pub proof fn law_offsets_ascend<H>(
    files: Seq<(String, FileManifestParent<H>)>,
    toc: Seq<SSMCTocEntry>,
    manifests: Seq<FileManifestParent<H>>,
    f: int,
    i: int,
    j: int,
)
    requires
        listed(files, toc, manifests),
        0 <= f < manifests.len(),
        0 <= i < j < manifests[f].chunk_metadata@.len(),
    ensures
        manifests[f].chunk_metadata@[i].offset <= manifests[f].chunk_metadata@[j].offset,
{
    let sorted = choose|sorted: Seq<(String, FileManifestParent<H>)>| #[trigger]
        sorting::stably_sorted(files, sorted) && lists(sorted, toc, manifests);
    assert(is_listed(sorted[f], toc[f], manifests[f]));
    assert(!manifests[f].chunk_metadata@[j].before(manifests[f].chunk_metadata@[i]));
}

/// Whether the entry and the manifest at one place of a layout are those of the
/// given file: they bear its name, count its chunks and hold exactly these.
pub open spec fn stands_for<H>(
    toc: SSMCTocEntry,
    manifest: FileManifestParent<H>,
    file: (String, FileManifestParent<H>),
) -> bool {
    &&& toc.filename@ == file.0@
    &&& manifest.chunk_count == file.1.chunk_count
    &&& manifest.chunk_metadata@.to_multiset() == file.1.chunk_metadata@.to_multiset()
    &&& file.1.chunk_metadata@.len() == 0 ==> toc.uncompressed_size == 0
    &&& file.1.chunk_metadata@.len() > 0 ==> toc.uncompressed_size
        == file.1.chunk_metadata@.last().offset + file.1.chunk_metadata@.last().length
}

/// A layout lists every file and nothing else: it has as many entries and
/// manifests as there are files, each file has its place in both, and each place
/// is that of a file.
pub proof fn law_every_file_is_listed<H>(
    files: Seq<(String, FileManifestParent<H>)>,
    toc: Seq<SSMCTocEntry>,
    manifests: Seq<FileManifestParent<H>>,
    i: int,
)
    requires
        listed(files, toc, manifests),
        0 <= i < files.len(),
    ensures
        toc.len() == files.len(),
        manifests.len() == files.len(),
        exists|f: int| 0 <= f < toc.len() && stands_for(#[trigger] toc[f], manifests[f], files[i]),
        exists|g: int| 0 <= g < files.len() && stands_for(toc[i], manifests[i], #[trigger] files[g]),
{
    broadcast use vstd::seq_lib::group_to_multiset_ensures;

    let sorted = choose|sorted: Seq<(String, FileManifestParent<H>)>| #[trigger]
        sorting::stably_sorted(files, sorted) && lists(sorted, toc, manifests);
    assert(files.len() == files.to_multiset().len());
    assert(sorted.len() == sorted.to_multiset().len());
    assert(files.contains(files[i]));
    assert(files.to_multiset().count(files[i]) > 0);
    assert(sorted.to_multiset().count(files[i]) > 0);
    assert(sorted.contains(files[i]));
    let f = choose|f: int| 0 <= f < sorted.len() && sorted[f] == files[i];
    assert(is_listed(sorted[f], toc[f], manifests[f]));
    assert(stands_for(toc[f], manifests[f], files[i]));
    lemma_same_members(files, sorted, i);
    let g = choose|g: int| 0 <= g < files.len() && #[trigger] files[g] == sorted[i];
    assert(is_listed(sorted[i], toc[i], manifests[i]));
    assert(stands_for(toc[i], manifests[i], files[g]));
}

/// The bytes of the first `n` chunks of a manifest, end to end, where each hash
/// stands for the given bytes.
pub open spec fn chunks_joined<H>(
    meta: Seq<SSAChunkMeta<H>>,
    chunk_of: spec_fn(H) -> Seq<u8>,
    n: int,
) -> Seq<u8>
    decreases n,
{
    if n <= 0 {
        Seq::empty()
    } else {
        chunks_joined(meta, chunk_of, n - 1) + chunk_of(meta[n - 1].hash)
    }
}

/// Whether chunks cover the bytes from the start up to a length, one behind the
/// other.
pub open spec fn follow_on<H>(meta: Seq<SSAChunkMeta<H>>, total: int) -> bool {
    &&& meta.len() == 0 ==> total == 0
    &&& meta.len() > 0 ==> meta[0].offset == 0 && meta.last().offset + meta.last().length == total
    &&& forall|i: int| 0 <= i < meta.len() ==> (#[trigger] meta[i]).length > 0
    &&& forall|i: int, j: int|
        0 <= i && j == i + 1 && j < meta.len() ==> (#[trigger] meta[j]).offset == (
        #[trigger] meta[i]).offset + meta[i].length
}

proof fn lemma_follow_on_ascends<H>(meta: Seq<SSAChunkMeta<H>>, total: int, i: int, j: int)
    requires
        follow_on(meta, total),
        0 <= i < j < meta.len(),
    ensures
        meta[i].offset < meta[j].offset,
    decreases j - i,
{
    assert(meta[i].length > 0);
    assert(meta[i + 1].offset == meta[i].offset + meta[i].length);
    if i + 1 < j {
        lemma_follow_on_ascends(meta, total, i + 1, j);
    }
}

/// Chunks in the order of their offsets are those that ascend strictly, if they
/// are the same chunks.
proof fn lemma_one_order<H>(a: Seq<SSAChunkMeta<H>>, b: Seq<SSAChunkMeta<H>>)
    requires
        forall|i: int, j: int|
            0 <= i < j < a.len() ==> (#[trigger] a[i]).offset < (#[trigger] a[j]).offset,
        forall|i: int, j: int|
            0 <= i < j < b.len() ==> (#[trigger] b[i]).offset <= (#[trigger] b[j]).offset,
        a.to_multiset() == b.to_multiset(),
    ensures
        a == b,
    decreases a.len(),
{
    broadcast use vstd::seq_lib::group_to_multiset_ensures;

    assert(a.len() == a.to_multiset().len());
    assert(b.len() == b.to_multiset().len());
    if a.len() == 0 {
        assert(a =~= b);
    } else {
        assert(a.contains(a[0]) && b.contains(b[0]));
        assert(a.to_multiset().count(a[0]) > 0 && b.to_multiset().count(b[0]) > 0);
        assert(b.contains(a[0]) && a.contains(b[0]));
        let j = choose|j: int| 0 <= j < b.len() && b[j] == a[0];
        let k = choose|k: int| 0 <= k < a.len() && a[k] == b[0];
        assert(a[0] == b[0]);
        let u = a.drop_first();
        let v = b.drop_first();
        assert(u =~= a.remove(0));
        assert(v =~= b.remove(0));
        assert forall|i: int, j: int| 0 <= i < j < u.len() implies (#[trigger] u[i]).offset < (
        #[trigger] u[j]).offset by {
            assert(u[i] == a[i + 1] && u[j] == a[j + 1]);
        }
        assert forall|i: int, j: int| 0 <= i < j < v.len() implies (#[trigger] v[i]).offset <= (
        #[trigger] v[j]).offset by {
            assert(v[i] == b[i + 1] && v[j] == b[j + 1]);
        }
        lemma_one_order(u, v);
        assert(a =~= seq![a[0]] + u);
        assert(b =~= seq![b[0]] + v);
    }
}

proof fn lemma_joined<H>(
    file: Seq<u8>,
    meta: Seq<SSAChunkMeta<H>>,
    chunk_of: spec_fn(H) -> Seq<u8>,
    n: int,
)
    requires
        follow_on(meta, file.len() as int),
        0 <= n <= meta.len(),
        forall|i: int|
            0 <= i < meta.len() ==> chunk_of((#[trigger] meta[i]).hash) == file.subrange(
                meta[i].offset as int,
                meta[i].offset + meta[i].length,
            ),
    ensures
        0 <= (if n == 0 {
            0
        } else {
            meta[n - 1].offset + meta[n - 1].length
        }) <= file.len(),
        chunks_joined(meta, chunk_of, n) == file.take(
            if n == 0 {
                0
            } else {
                meta[n - 1].offset + meta[n - 1].length
            },
        ),
    decreases n,
{
    if n == 0 {
        assert(chunks_joined(meta, chunk_of, 0) =~= file.take(0));
    } else {
        lemma_joined(file, meta, chunk_of, n - 1);
        let m = meta[n - 1];
        if n < meta.len() {
            lemma_follow_on_ascends(meta, file.len() as int, n - 1, meta.len() - 1);
            assert(meta[n].offset == m.offset + m.length);
            if n < meta.len() - 1 {
                lemma_follow_on_ascends(meta, file.len() as int, n, meta.len() - 1);
            }
        }
        if n > 1 {
            assert(m.offset == meta[n - 2].offset + meta[n - 2].length);
        }
        assert(file.take(m.offset + m.length) =~= file.take(m.offset as int) + file.subrange(
            m.offset as int,
            m.offset + m.length,
        ));
    }
}

/// A file that was cut without gaps comes out of a layout whole: whatever order
/// its chunks were given in, taken in the order of the manifest they are the file.
/// It takes hashes that tell the chunks apart.
pub proof fn law_listed_file_is_whole<H>(
    files: Seq<(String, FileManifestParent<H>)>,
    toc: Seq<SSMCTocEntry>,
    manifests: Seq<FileManifestParent<H>>,
    file: Seq<u8>,
    cut: Seq<SSAChunkMeta<H>>,
    chunk_of: spec_fn(H) -> Seq<u8>,
    f: int,
)
    requires
        listed(files, toc, manifests),
        0 <= f < manifests.len(),
        follow_on(cut, file.len() as int),
        forall|i: int|
            0 <= i < cut.len() ==> chunk_of((#[trigger] cut[i]).hash) == file.subrange(
                cut[i].offset as int,
                cut[i].offset + cut[i].length,
            ),
        forall|g: int|
            0 <= g < files.len() && toc[f].filename@ == (#[trigger] files[g]).0@
                ==> files[g].1.chunk_metadata@.to_multiset() == cut.to_multiset(),
    ensures
        manifests[f].chunk_metadata@ == cut,
        chunks_joined(
            manifests[f].chunk_metadata@,
            chunk_of,
            manifests[f].chunk_metadata@.len() as int,
        ) == file,
{
    let sorted = choose|sorted: Seq<(String, FileManifestParent<H>)>| #[trigger]
        sorting::stably_sorted(files, sorted) && lists(sorted, toc, manifests);
    let meta = manifests[f].chunk_metadata@;
    assert(is_listed(sorted[f], toc[f], manifests[f]));
    lemma_same_members(files, sorted, f);
    let g = choose|g: int| 0 <= g < files.len() && #[trigger] files[g] == sorted[f];
    assert(files[g].1.chunk_metadata@.to_multiset() == cut.to_multiset());
    assert forall|i: int, j: int| 0 <= i < j < meta.len() implies (#[trigger] meta[i]).offset <= (
    #[trigger] meta[j]).offset by {
        law_offsets_ascend(files, toc, manifests, f, i, j);
    }
    assert forall|i: int, j: int| 0 <= i < j < cut.len() implies (#[trigger] cut[i]).offset < (
    #[trigger] cut[j]).offset by {
        lemma_follow_on_ascends(cut, file.len() as int, i, j);
    }
    lemma_one_order(cut, meta);
    lemma_joined(file, cut, chunk_of, cut.len() as int);
    assert(file.take(file.len() as int) =~= file);
}

/// The hashes of the first `n` manifests, end to end.
pub open spec fn all_hashes<H>(manifests: Seq<FileManifestParent<H>>, n: int) -> Seq<H>
    decreases n,
{
    if n <= 0 {
        Seq::empty()
    } else {
        all_hashes(manifests, n - 1) + processing::manifest_hashes(
            manifests[n - 1].chunk_metadata@,
        )
    }
}

proof fn lemma_occurrences<H>(meta: Seq<SSAChunkMeta<H>>, n: int, hash: H)
    requires
        0 <= n <= meta.len(),
    ensures
        occurrences(meta, n, hash) == processing::manifest_hashes(meta).take(
            n,
        ).to_multiset().count(hash),
    decreases n,
{
    broadcast use vstd::seq_lib::group_to_multiset_ensures;

    let hashes = processing::manifest_hashes(meta);
    if n == 0 {
        assert(hashes.take(0) =~= Seq::empty());
        assert(!hashes.take(0).contains(hash));
    } else {
        lemma_occurrences(meta, n - 1, hash);
        assert(hashes.take(n) =~= hashes.take(n - 1).push(meta[n - 1].hash));
    }
}

proof fn lemma_frequency<H>(manifests: Seq<FileManifestParent<H>>, n: int, hash: H)
    requires
        0 <= n <= manifests.len(),
    ensures
        frequency(manifests, n, hash) == all_hashes(manifests, n).to_multiset().count(hash),
    decreases n,
{
    broadcast use vstd::seq_lib::group_to_multiset_ensures;

    if n == 0 {
        assert(!all_hashes(manifests, 0).contains(hash));
    } else {
        let meta = manifests[n - 1].chunk_metadata@;
        let more = processing::manifest_hashes(meta);
        lemma_frequency(manifests, n - 1, hash);
        lemma_occurrences(meta, meta.len() as int, hash);
        assert(more.take(meta.len() as int) =~= more);
        vstd::seq_lib::lemma_multiset_commutative(all_hashes(manifests, n - 1), more);
    }
}

/// The count of a chunk is how often its hash stands in all manifests together.
pub proof fn law_frequency_is_the_count<H>(manifests: Seq<FileManifestParent<H>>, hash: H)
    ensures
        frequency(manifests, manifests.len() as int, hash) == all_hashes(
            manifests,
            manifests.len() as int,
        ).to_multiset().count(hash),
{
    lemma_frequency(manifests, manifests.len() as int, hash);
}

/// A file scores one for every time that one of its chunks stands in a manifest:
/// where each of its chunks stands there the same number of times, the score is
/// that number for each chunk.
pub proof fn law_score_counts_sharing<H>(
    manifests: Seq<FileManifestParent<H>>,
    meta: Seq<SSAChunkMeta<H>>,
    times: int,
    n: int,
)
    requires
        0 <= n <= meta.len(),
        forall|k: int|
            0 <= k < n ==> all_hashes(manifests, manifests.len() as int).to_multiset().count(
                (#[trigger] meta[k]).hash,
            ) == times,
    ensures
        score(manifests, meta, n) == times * n,
    decreases n,
{
    if n > 0 {
        law_score_counts_sharing(manifests, meta, times, n - 1);
        law_frequency_is_the_count(manifests, meta[n - 1].hash);
        assert(times * n == times * (n - 1) + times) by (nonlinear_arith);
    } else {
        assert(times * n == 0) by (nonlinear_arith)
            requires
                n == 0,
        ;
    }
}

proof fn lemma_first_seen_prefix<H>(s: Seq<H>, m: int)
    requires
        0 <= m <= s.len(),
    ensures
        first_seen(s.take(m)).len() <= first_seen(s).len(),
        forall|i: int|
            0 <= i < first_seen(s.take(m)).len() ==> #[trigger] first_seen(s)[i] == first_seen(
                s.take(m),
            )[i],
    decreases s.len(),
{
    if m == s.len() {
        assert(s.take(m) =~= s);
    } else {
        let front = s.drop_last();
        lemma_first_seen_prefix(front, m);
        assert(front.take(m) =~= s.take(m));
    }
}

proof fn lemma_ranked_prefix<H>(
    manifests: Seq<FileManifestParent<H>>,
    ranking: Seq<ScoredFile>,
    m: int,
    n: int,
)
    requires
        0 <= m <= n <= ranking.len(),
    ensures
        ranked_hashes(manifests, ranking, m).len() <= ranked_hashes(manifests, ranking, n).len(),
        ranked_hashes(manifests, ranking, n).take(
            ranked_hashes(manifests, ranking, m).len() as int,
        ) == ranked_hashes(manifests, ranking, m),
    decreases n,
{
    let part = ranked_hashes(manifests, ranking, m);
    if m == n {
        assert(part.take(part.len() as int) =~= part);
    } else {
        lemma_ranked_prefix(manifests, ranking, m, n - 1);
        let front = ranked_hashes(manifests, ranking, n - 1);
        assert(ranked_hashes(manifests, ranking, n).take(part.len() as int) =~= front.take(
            part.len() as int,
        ));
    }
}

/// Files that share more come first: a chunk of a file is stored before any chunk
/// that stands only in files of a lower score.
pub proof fn law_shared_chunks_come_first<H>(
    manifests: Seq<FileManifestParent<H>>,
    hashes: Seq<H>,
    a: int,
    k: int,
    p: int,
    q: int,
)
    requires
        manifests.len() <= usize::MAX,
        chunk_order(manifests, hashes),
        forall|i: int| 0 <= i < manifests.len() ==> #[trigger] file_score(manifests, i) <= u64::MAX,
        0 <= a < manifests.len(),
        0 <= k < manifests[a].chunk_metadata@.len(),
        0 <= p < hashes.len(),
        0 <= q < hashes.len(),
        hashes[p] == manifests[a].chunk_metadata@[k].hash,
        forall|b: int, l: int|
            0 <= b < manifests.len() && 0 <= l < manifests[b].chunk_metadata@.len() && (
            #[trigger] manifests[b].chunk_metadata@[l]).hash == hashes[q] ==> file_score(
                manifests,
                b,
            ) < file_score(manifests, a),
    ensures
        p < q,
{
    broadcast use vstd::seq_lib::group_to_multiset_ensures;

    let ranking = choose|ranking: Seq<ScoredFile>| #[trigger]
        sorting::stably_sorted(scored(manifests), ranking) && hashes == first_seen(
            ranked_hashes(manifests, ranking, ranking.len() as int),
        );
    let n = ranking.len() as int;
    let all = ranked_hashes(manifests, ranking, n);
    let file = scored(manifests)[a];
    assert(scored(manifests).contains(file));
    assert(scored(manifests).to_multiset().count(file) > 0);
    assert(ranking.to_multiset().count(file) > 0);
    assert(ranking.contains(file));
    let r = choose|r: int| 0 <= r < ranking.len() && ranking[r] == file;
    let part = ranked_hashes(manifests, ranking, r + 1);
    lemma_ranked_prefix(manifests, ranking, r + 1, n);
    lemma_first_seen_prefix(all, part.len() as int);
    lemma_first_seen(part);
    lemma_first_seen(all);
    lemma_ranked_hashes(manifests, ranking, r + 1, hashes[p]);
    lemma_ranked_hashes(manifests, ranking, r + 1, hashes[q]);
    assert(file_score(manifests, a) >= 0) by {
        lemma_score_grows(manifests, manifests[a].chunk_metadata@, 0, manifests[a].chunk_metadata@.len() as int);
    }
    assert(manifests[ranking[r].index as int].chunk_metadata@[k].hash == hashes[p]);
    assert(part.contains(hashes[p]));
    assert(first_seen(part).contains(hashes[p]));
    let seen = first_seen(part);
    let at = choose|at: int| 0 <= at < seen.len() && seen[at] == hashes[p];
    assert(hashes[at] == hashes[p]);
    assert(at == p);
    if part.contains(hashes[q]) {
        let (s, l) = choose|s: int, l: int|
            0 <= s < r + 1 && 0 <= l < manifests[ranking[s].index as int].chunk_metadata@.len() && (
            #[trigger] manifests[ranking[s].index as int].chunk_metadata@[l]).hash == hashes[q];
        lemma_same_members(scored(manifests), ranking, s);
        let b = choose|b: int|
            0 <= b < scored(manifests).len() && #[trigger] scored(manifests)[b] == ranking[s];
        assert(ranking[s].index == b);
        assert(file_score(manifests, b) < file_score(manifests, a));
        lemma_score_grows(manifests, manifests[b].chunk_metadata@, 0, manifests[b].chunk_metadata@.len() as int);
        if s < r {
            assert(!ranking[r].before(ranking[s]));
        }
        assert(false);
    }
    assert(!seen.contains(hashes[q]));
    if q < seen.len() {
        assert(seen[q] == hashes[q]);
    }
}

} // verus!
