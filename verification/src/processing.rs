//! Cutting files into chunks, and checking and reading files by their chunks.

use vstd::prelude::*;
use crate::archive;
use crate::archive::{run_compression, train_dictionary, ArchiveError, CountSink, ListSource};
use crate::error::{IsCancelled, SpriteShrinkError};
use crate::fetch;
use crate::hashing;
use crate::hashing::{
    generate_sha_512, sha512_finish, sha512_start, sha512_update, Hashable, SS_SEED,
};
use crate::mapper::same_bytes;
use crate::reconstruction;
use crate::structs::{
    Chunk, FileData, FileManifestParent, ProcessedFileData, SSAChunkMeta, SeekMetadata,
};

verus! {

/// Why the chunks of a file could not be worked with.
#[derive(Debug)]
pub enum ProcessingError {
    SampleGeneration,
    HashMismatchError(String),
    InternalError(String),
    DictionaryError(String),
    SeekOutOfBounds(String),
    VerificationError(String),
    ThreadPanic(String),
    External(String),
    Cancelled,
}

// ---------------------------------------------------------------------------
// Cutting files into chunks
// ---------------------------------------------------------------------------

/// The stretches `(fingerprint, offset, length)` into which content-defined
/// chunking at normalization level 1 cuts a byte string, for given minimum,
/// average and maximum sizes and a seed.
pub uninterp spec fn cut_points(
    data: Seq<u8>,
    min_size: u32,
    avg_size: u32,
    max_size: u32,
    seed: u64,
) -> Seq<(u64, usize, usize)>;

/// A list of chunks as plain triples.
pub open spec fn chunk_parts(chunks: Seq<Chunk>) -> Seq<(u64, usize, usize)> {
    chunks.map_values(|c: Chunk| (c.hash, c.offset, c.length))
}

/// Whether chunks follow each other without gap from the start of a byte string
/// of length `n` to its end, none of them empty or longer than `max_size`.
pub open spec fn tiles(chunks: Seq<Chunk>, n: int, max_size: int) -> bool {
    &&& forall|i: int|
        0 <= i < chunks.len() ==> 1 <= (#[trigger] chunks[i]).length <= max_size
            && chunks[i].offset + chunks[i].length <= n
    &&& chunks.len() == 0 ==> n == 0
    &&& chunks.len() > 0 ==> chunks[0].offset == 0 && chunks.last().offset + chunks.last().length
        == n
    &&& forall|i: int, j: int|
        0 <= i && j == i + 1 && j < chunks.len() ==> (#[trigger] chunks[i]).offset
            + chunks[i].length == (#[trigger] chunks[j]).offset
}

/// `fastcdc::v2020::FastCDC::with_level_and_seed` at level 1, run to its end:
/// the chunks are a function of the arguments, and they tile the data in pieces
/// of at most the maximum size. Sizes outside the accepted ranges make it
/// panic.
#[verifier::external_body]
fn cut(data: &[u8], min_size: u32, avg_size: u32, max_size: u32, seed: u64) -> (chunks: Vec<Chunk>)
    requires
        64 <= min_size <= 1048576,
        256 <= avg_size <= 4194304,
        1024 <= max_size <= 16777216,
        min_size <= avg_size <= max_size,
    ensures
        chunk_parts(chunks@) == cut_points(data@, min_size, avg_size, max_size, seed),
        tiles(chunks@, data@.len() as int, max_size as int),
{
    fastcdc::v2020::FastCDC::with_level_and_seed(
        data,
        min_size,
        avg_size,
        max_size,
        fastcdc::v2020::Normalization::Level1,
        seed,
    ).map(|c| Chunk { hash: c.hash, offset: c.offset, length: c.length }).collect()
}

/// The average chunk size that a window size asks for: what is left of it in
/// the 34 bits that matter.
pub open spec fn effective_window(window_size: u64) -> int {
    window_size as int % 17179869184
}

/// Whether chunks of the sizes that a window size asks for can be made.
pub open spec fn window_fits(window_size: u64) -> bool {
    4 * window_size <= u64::MAX && 256 <= effective_window(window_size) <= 4194304
}

/// The chunks that a byte string is cut into for a window size: a quarter of
/// the window at least, four times the window at most.
pub open spec fn window_cuts(data: Seq<u8>, seed: u64, window_size: u64) -> Seq<
    (u64, usize, usize),
> {
    let w = effective_window(window_size);
    cut_points(data, (w / 4) as u32, w as u32, (4 * w) as u32, seed)
}

/// Cuts a file into chunks.
pub fn chunk_data(file_data: &FileData, seed: u64, window_size: u64) -> (chunks: Vec<Chunk>)
    requires
        window_fits(window_size),
    ensures
        chunk_parts(chunks@) == window_cuts(file_data.file_data@, seed, window_size),
        tiles(chunks@, file_data.file_data@.len() as int, 4 * effective_window(window_size)),
{
    // The sizes are 32 bits wide, and the smallest is a quarter of the window.
    let w: u64 = window_size % 17179869184;
    let min_size = (w / 4) as u32;
    let avg_size = w as u32;
    let max_size = (w * 4) as u32;
    cut(file_data.file_data.as_slice(), min_size, avg_size, max_size, seed)
}

/// Cuts a file into chunks and computes the digest that it will be checked
/// against. There is nothing to do for an empty file.
pub fn process_file_in_memory(file_data: FileData, window_size: u64) -> (r: Option<
    ProcessedFileData,
>)
    requires
        file_data.file_data@.len() > 0 ==> window_fits(window_size),
    ensures
        file_data.file_data@.len() == 0 ==> r is None,
        file_data.file_data@.len() > 0 ==> (r matches Some(p) && p.file_name@
            == file_data.file_name@ && p.file_data@ == file_data.file_data@ && p.veri_hash@
            == hashing::sha512(file_data.file_data@) && chunk_parts(p.chunks@) == window_cuts(
            file_data.file_data@,
            SS_SEED,
            window_size,
        ) && tiles(
            p.chunks@,
            file_data.file_data@.len() as int,
            4 * effective_window(window_size),
        )),
{
    if file_data.file_data.is_empty() {
        return None;
    }
    let veri_hash = generate_sha_512(file_data.file_data.as_slice());
    let chunks = chunk_data(&file_data, SS_SEED, window_size);
    Some(
        ProcessedFileData {
            file_name: file_data.file_name,
            veri_hash,
            chunks,
            file_data: file_data.file_data,
        },
    )
}

/// The bytes of a chunk.
pub open spec fn chunk_bytes(file: Seq<u8>, chunk: Chunk) -> Seq<u8> {
    file.subrange(chunk.offset as int, chunk.offset + chunk.length)
}

/// The manifest entry of a chunk. Lengths are kept in 32 bits.
pub open spec fn chunk_meta<H: Hashable>(file: Seq<u8>, chunk: Chunk) -> SSAChunkMeta<H> {
    SSAChunkMeta {
        hash: H::hash_of(chunk_bytes(file, chunk)),
        offset: chunk.offset as u64,
        length: chunk.length as u32,
    }
}

/// Makes the manifest of a file and pairs the bytes of each chunk with their
/// hash.
pub fn create_file_manifest_and_chunks<H: Hashable>(file_data: &[u8], chunks: &[Chunk]) -> (out: (
    FileManifestParent<H>,
    Vec<(H, Vec<u8>)>,
))
    requires
        forall|i: int|
            0 <= i < chunks@.len() ==> (#[trigger] chunks@[i]).offset + chunks@[i].length
                <= file_data.len(),
    ensures
        out.0.chunk_count == chunks@.len(),
        out.0.chunk_metadata@ == chunks@.map_values(|c: Chunk| chunk_meta::<H>(file_data@, c)),
        out.1@.len() == chunks@.len(),
        forall|i: int|
            0 <= i < chunks@.len() ==> (#[trigger] out.1@[i]).0 == H::hash_of(
                chunk_bytes(file_data@, chunks@[i]),
            ) && out.1@[i].1@ == chunk_bytes(file_data@, chunks@[i]),
{
    let mut chunk_metadata: Vec<SSAChunkMeta<H>> = Vec::with_capacity(chunks.len());
    let mut chunk_data_list: Vec<(H, Vec<u8>)> = Vec::with_capacity(chunks.len());
    let ghost wanted = chunks@.map_values(|c: Chunk| chunk_meta::<H>(file_data@, c));
    let mut n: usize = 0;
    while n < chunks.len()
        invariant
            n <= chunks@.len(),
            wanted == chunks@.map_values(|c: Chunk| chunk_meta::<H>(file_data@, c)),
            forall|i: int|
                0 <= i < chunks@.len() ==> (#[trigger] chunks@[i]).offset + chunks@[i].length
                    <= file_data.len(),
            chunk_metadata@ =~= wanted.take(n as int),
            chunk_data_list@.len() == n,
            forall|i: int|
                0 <= i < n ==> (#[trigger] chunk_data_list@[i]).0 == H::hash_of(
                    chunk_bytes(file_data@, chunks@[i]),
                ) && chunk_data_list@[i].1@ == chunk_bytes(file_data@, chunks@[i]),
        decreases chunks@.len() - n,
    {
        let chunk = chunks[n];
        let bytes = &file_data[chunk.offset..chunk.offset + chunk.length];
        let hash = H::from_bytes_with_seed(bytes);
        let copy = vstd::slice::slice_to_vec(bytes);
        chunk_data_list.push((hash, copy));
        chunk_metadata.push(
            SSAChunkMeta { hash, offset: chunk.offset as u64, length: chunk.length as u32 },
        );
        n += 1;
    }
    assert(chunk_metadata@ =~= wanted);
    (FileManifestParent { chunk_count: chunks.len() as u64, chunk_metadata }, chunk_data_list)
}

/// The bytes of the first `n` chunks, end to end.
pub open spec fn first_chunks(file: Seq<u8>, chunks: Seq<Chunk>, n: int) -> Seq<u8>
    decreases n,
{
    if n <= 0 {
        Seq::empty()
    } else {
        first_chunks(file, chunks, n - 1) + chunk_bytes(file, chunks[n - 1])
    }
}

/// The chunks of a file, end to end, are the file.
pub proof fn law_chunks_reassemble(file: Seq<u8>, chunks: Seq<Chunk>, max_size: int)
    requires
        tiles(chunks, file.len() as int, max_size),
    ensures
        first_chunks(file, chunks, chunks.len() as int) == file,
{
    if chunks.len() == 0 {
        assert(first_chunks(file, chunks, 0) =~= file);
    } else {
        lemma_first_chunks(file, chunks, max_size, chunks.len() as int);
        assert(file.take(file.len() as int) =~= file);
    }
}

proof fn lemma_first_chunks(file: Seq<u8>, chunks: Seq<Chunk>, max_size: int, n: int)
    requires
        tiles(chunks, file.len() as int, max_size),
        1 <= n <= chunks.len(),
    ensures
        first_chunks(file, chunks, n) == file.take(chunks[n - 1].offset + chunks[n - 1].length),
    decreases n,
{
    if n == 1 {
        assert(first_chunks(file, chunks, 0) =~= Seq::empty());
        assert(first_chunks(file, chunks, 1) =~= file.take(
            chunks[0].offset + chunks[0].length,
        ));
    } else {
        lemma_first_chunks(file, chunks, max_size, n - 1);
        assert(chunks[n - 2].offset + chunks[n - 2].length == chunks[n - 1].offset);
        assert(first_chunks(file, chunks, n) =~= file.take(
            chunks[n - 1].offset + chunks[n - 1].length,
        ));
    }
}

// ---------------------------------------------------------------------------
// Checking files
// ---------------------------------------------------------------------------

/// Number of chunks asked for at a time when a file is checked.
pub const BATCH_SIZE: usize = 64;

/// The hashes of a manifest, in order.
pub open spec fn manifest_hashes<H>(meta: Seq<SSAChunkMeta<H>>) -> Seq<H> {
    meta.map_values(|m: SSAChunkMeta<H>| m.hash)
}

fn collect_hashes<H: Copy>(meta: &Vec<SSAChunkMeta<H>>) -> (hashes: Vec<H>)
    ensures
        hashes@ == manifest_hashes(meta@),
{
    let mut hashes: Vec<H> = Vec::new();
    let mut i: usize = 0;
    while i < meta.len()
        invariant
            i <= meta@.len(),
            hashes@ =~= manifest_hashes(meta@).take(i as int),
        decreases meta@.len() - i,
    {
        hashes.push(meta[i].hash);
        i += 1;
    }
    assert(hashes@ =~= manifest_hashes(meta@));
    hashes
}

/// Whether a number of bytes may have been reported to a callback of type `P`.
pub open spec fn told<P: FnMut(u64)>(n: u64) -> bool {
    exists|p: P| #[trigger] call_ensures(p, (n,), ())
}

/// Whether the length of each chunk in a reply was reported.
pub open spec fn lengths_told<P: FnMut(u64)>(reply: Seq<Vec<u8>>) -> bool {
    forall|k: int| 0 <= k < reply.len() ==> told::<P>((#[trigger] reply[k])@.len() as u64)
}

/// Whether the replies answer all requests for the chunks of a file, and the
/// length of each chunk was reported.
pub open spec fn file_read<
    H,
    E,
    D: Fn(&[H]) -> Result<Vec<Vec<u8>>, E>,
    P: FnMut(u64),
>(get: &D, hashes: Seq<H>, replies: Seq<Vec<Vec<u8>>>) -> bool {
    &&& fetch::all_answered(get, hashes, 64, replies)
    &&& forall|i: int| 0 <= i < replies.len() ==> lengths_told::<P>((#[trigger] replies[i])@)
}

/// What checking a file yields. The digest decides once all chunks have been
/// handed out; until then an error of the callback may end the check.
pub open spec fn verify_outcome<
    H,
    E: IsCancelled + std::fmt::Display,
    D: Fn(&[H]) -> Result<Vec<Vec<u8>>, E>,
    P: FnMut(u64),
>(
    r: Result<(), SpriteShrinkError>,
    title: Seq<char>,
    hashes: Seq<H>,
    veri_hash: Seq<u8>,
    get: &D,
) -> bool {
    match r {
        Ok(()) => exists|replies: Seq<Vec<Vec<u8>>>| #[trigger]
            file_read::<H, E, D, P>(get, hashes, replies) && hashing::sha512(
                fetch::content(replies),
            ) == veri_hash,
        Err(SpriteShrinkError::Processing(ProcessingError::HashMismatchError(t))) => t@ == title
            && exists|replies: Seq<Vec<Vec<u8>>>| #[trigger]
            file_read::<H, E, D, P>(get, hashes, replies) && hashing::sha512(
                fetch::content(replies),
            ) != veri_hash,
        Err(SpriteShrinkError::Cancelled) => exists|replies: Seq<Vec<Vec<u8>>>, e: E| #[trigger]
            fetch::refused_after(get, hashes, 64, replies, e) && fetch::stands_for_stop(e),
        Err(SpriteShrinkError::External(m)) => exists|replies: Seq<Vec<Vec<u8>>>, e: E| #[trigger]
            fetch::refused_after(get, hashes, 64, replies, e) && fetch::stands_for_failure(e, m),
        _ => false,
    }
}

/// Checks a file: asks for its chunks in order, digests them and compares the
/// digest with the one taken when the file was archived. Reports the length of
/// each chunk before it is digested.
pub fn verify_single_file<D, E, H, P>(
    title: String,
    fmp: &FileManifestParent<H>,
    veri_hash: &[u8; 64],
    get_chunk_data: D,
    mut progress_cb: P,
) -> (r: Result<(), SpriteShrinkError>) where
    D: Fn(&[H]) -> Result<Vec<Vec<u8>>, E>,
    E: IsCancelled + std::fmt::Display,
    H: Copy,
    P: FnMut(u64),

    requires
        fetch::can_ask(&get_chunk_data),
        forall|p: P, n: u64| call_requires(p, (n,)),
    ensures
        verify_outcome::<H, E, D, P>(
            r,
            title@,
            manifest_hashes(fmp.chunk_metadata@),
            veri_hash@,
            &get_chunk_data,
        ),
{
    let hashes = collect_hashes(&fmp.chunk_metadata);
    let mut hasher = sha512_start();
    let ghost mut replies: Seq<Vec<Vec<u8>>> = Seq::empty();
    let mut from: usize = 0;
    assert(fetch::content(replies) =~= Seq::empty());
    while from < hashes.len()
        invariant
            from <= hashes@.len(),
            hashes@ == manifest_hashes(fmp.chunk_metadata@),
            from < hashes@.len() ==> from == 64 * replies.len(),
            from == hashes@.len() ==> 64 * replies.len() >= from,
            replies.len() > 0 ==> 64 * (replies.len() - 1) < hashes@.len(),
            fetch::answered(&get_chunk_data, hashes@, 64, replies),
            forall|j: int| 0 <= j < replies.len() ==> lengths_told::<P>((#[trigger] replies[j])@),
            hashing::sha512_input(hasher) == fetch::content(replies),
            fetch::can_ask(&get_chunk_data),
            forall|p: P, n: u64| call_requires(p, (n,)),
        decreases hashes@.len() - from,
    {
        let to: usize = if hashes.len() - from > BATCH_SIZE {
            from + BATCH_SIZE
        } else {
            hashes.len()
        };
        let ghost i = replies.len() as int;
        assert(hashes@.subrange(from as int, to as int) == fetch::batch(hashes@, 64, i));
        let reply = match fetch::ask(&get_chunk_data, hashes.as_slice(), from, to) {
            Ok(reply) => reply,
            Err(e) => {
                assert(fetch::refused_after(&get_chunk_data, hashes@, 64, replies, e));
                if e.is_cancelled() {
                    return Err(SpriteShrinkError::Cancelled);
                }
                return Err(SpriteShrinkError::External(e.to_string()));
            },
        };
        let ghost before = hashing::sha512_input(hasher);
        let mut k: usize = 0;
        assert(reply@.take(0) =~= Seq::empty());
        assert(before + reconstruction::joined(reply@.take(0)) =~= before);
        while k < reply.len()
            invariant
                k <= reply@.len(),
                forall|m: int| 0 <= m < k ==> told::<P>((#[trigger] reply@[m])@.len() as u64),
                hashing::sha512_input(hasher) == before + reconstruction::joined(
                    reply@.take(k as int),
                ),
                forall|p: P, n: u64| call_requires(p, (n,)),
            decreases reply@.len() - k,
        {
            let length: u64 = reply[k].len() as u64;
            progress_cb(length);
            assert(told::<P>(length));
            sha512_update(&mut hasher, reply[k].as_slice());
            proof {
                reconstruction::lemma_joined_push(reply@.take(k as int), reply@[k as int]);
                assert(reply@.take(k + 1) =~= reply@.take(k as int).push(reply@[k as int]));
                assert(hashing::sha512_input(hasher) =~= before + reconstruction::joined(
                    reply@.take(k + 1),
                ));
            }
            k += 1;
        }
        proof {
            assert(reply@.take(k as int) =~= reply@);
            let old_replies = replies;
            replies = replies.push(reply);
            assert(replies.drop_last() =~= old_replies);
            assert forall|j: int| 0 <= j < replies.len() implies fetch::answers(
                &get_chunk_data,
                fetch::batch(hashes@, 64, j),
                #[trigger] replies[j],
            ) by {
                if j < i {
                    assert(replies[j] == old_replies[j]);
                }
            }
            assert forall|j: int| 0 <= j < replies.len() implies lengths_told::<P>(
                (#[trigger] replies[j])@,
            ) by {
                if j < i {
                    assert(replies[j] == old_replies[j]);
                }
            }
        }
        from = to;
    }
    let calculated = sha512_finish(hasher);
    assert(file_read::<H, E, D, P>(&get_chunk_data, hashes@, replies));
    if same_bytes(calculated.as_slice(), veri_hash.as_slice()) {
        Ok(())
    } else {
        Err(SpriteShrinkError::Processing(ProcessingError::HashMismatchError(title)))
    }
}

/// Number of chunks asked for in the first `j` requests.
pub open spec fn asked(n: int, j: int) -> int {
    if 64 * j < n {
        64 * j
    } else {
        n
    }
}

/// Whether the `j`th reply holds the chunks that the `j`th request asks for.
pub open spec fn holds_chunks(
    reply: Seq<Vec<u8>>,
    file: Seq<u8>,
    chunks: Seq<Chunk>,
    j: int,
) -> bool {
    &&& reply.len() == asked(chunks.len() as int, j + 1) - asked(chunks.len() as int, j)
    &&& forall|k: int|
        0 <= k < reply.len() ==> (#[trigger] reply[k])@ == chunk_bytes(
            file,
            chunks[asked(chunks.len() as int, j) + k],
        )
}

/// A file checks out against its own chunks: if every request is answered with
/// the chunks that the file was cut into, what is digested is the file.
pub proof fn law_own_chunks_check_out(
    file: Seq<u8>,
    chunks: Seq<Chunk>,
    max_size: int,
    replies: Seq<Vec<Vec<u8>>>,
)
    requires
        tiles(chunks, file.len() as int, max_size),
        64 * replies.len() >= chunks.len(),
        forall|j: int|
            0 <= j < replies.len() ==> holds_chunks((#[trigger] replies[j])@, file, chunks, j),
    ensures
        fetch::content(replies) == file,
        hashing::sha512(fetch::content(replies)) == hashing::sha512(file),
{
    lemma_content_is_chunks(file, chunks, replies, replies.len() as int);
    assert(replies.take(replies.len() as int) =~= replies);
    law_chunks_reassemble(file, chunks, max_size);
}

proof fn lemma_content_is_chunks(
    file: Seq<u8>,
    chunks: Seq<Chunk>,
    replies: Seq<Vec<Vec<u8>>>,
    j: int,
)
    requires
        0 <= j <= replies.len(),
        forall|j: int|
            0 <= j < replies.len() ==> holds_chunks((#[trigger] replies[j])@, file, chunks, j),
    ensures
        fetch::content(replies.take(j)) == first_chunks(
            file,
            chunks,
            asked(chunks.len() as int, j),
        ),
    decreases j,
{
    if j == 0 {
        assert(fetch::content(replies.take(0)) =~= first_chunks(file, chunks, 0));
    } else {
        lemma_content_is_chunks(file, chunks, replies, j - 1);
        let reply = replies[j - 1]@;
        assert(holds_chunks(replies[j - 1]@, file, chunks, j - 1));
        assert(replies.take(j).drop_last() =~= replies.take(j - 1));
        lemma_joined_is_chunks(
            file,
            chunks,
            reply,
            asked(chunks.len() as int, j - 1),
            reply.len() as int,
        );
        assert(reply.take(reply.len() as int) =~= reply);
    }
}

proof fn lemma_joined_is_chunks(
    file: Seq<u8>,
    chunks: Seq<Chunk>,
    reply: Seq<Vec<u8>>,
    from: int,
    k: int,
)
    requires
        0 <= from,
        0 <= k <= reply.len(),
        forall|k: int|
            0 <= k < reply.len() ==> (#[trigger] reply[k])@ == chunk_bytes(file, chunks[from + k]),
    ensures
        first_chunks(file, chunks, from) + reconstruction::joined(reply.take(k)) == first_chunks(
            file,
            chunks,
            from + k,
        ),
    decreases k,
{
    if k == 0 {
        assert(reply.take(0) =~= Seq::empty());
        assert(first_chunks(file, chunks, from) + reconstruction::joined(reply.take(0))
            =~= first_chunks(file, chunks, from));
    } else {
        lemma_joined_is_chunks(file, chunks, reply, from, k - 1);
        assert(reply.take(k) =~= reply.take(k - 1).push(reply[k - 1]));
        reconstruction::lemma_joined_push(reply.take(k - 1), reply[k - 1]);
        assert(first_chunks(file, chunks, from) + reconstruction::joined(reply.take(k))
            =~= first_chunks(file, chunks, from + k));
    }
}

// ---------------------------------------------------------------------------
// Samples for a dictionary
// ---------------------------------------------------------------------------

/// Number of bytes that samples may have in all: four gigabytes.
pub const MAX_SAMPLES_SIZE: u64 = 4294967296;

/// Capacity that is set aside for samples at most before they arrive.
const CAPACITY_LIMIT: usize = 16777216;

/// The largest power of two (from `unit` on) that a number has to be counted in
/// so that no more than 53 bits are left.
pub open spec fn counting_unit(n: int, unit: int) -> int
    decreases n - unit,
{
    if unit <= 0 || n < unit * 9007199254740992 {
        unit
    } else {
        counting_unit(n, 2 * unit)
    }
}

/// A number rounded to 53 significant bits, ties to even.
pub open spec fn rounded(n: int) -> int {
    let unit = counting_unit(n, 1);
    let q = n / unit;
    let rest = n % unit;
    if 2 * rest > unit || (2 * rest == unit && q % 2 == 1) {
        (q + 1) * unit
    } else {
        q * unit
    }
}

/// Every how manieth chunk is taken as a sample: the total in units of the
/// limit, rounded up. The total counts with 53 significant bits.
pub open spec fn sampling_step(total: int) -> int {
    let up = (rounded(total) + 4294967295) / 4294967296;
    if up < 1 {
        1
    } else {
        up
    }
}

fn compute_step(total: u64) -> (step: u64)
    ensures
        step == sampling_step(total as int),
        step >= 1,
{
    let n: u128 = total as u128;
    let mut unit: u128 = 1;
    while n >= unit * 9007199254740992
        invariant
            n == total,
            1 <= unit <= 4094,
            counting_unit(total as int, 1) == counting_unit(total as int, unit as int),
        decreases n - unit,
    {
        unit = unit * 2;
    }
    let q: u128 = n / unit;
    let rest: u128 = n % unit;
    assert(q * unit <= n && q * unit + unit <= n + 4094) by (nonlinear_arith)
        requires
            q == n / unit,
            1 <= unit <= 4094,
    ;
    assert((q + 1) * unit == q * unit + unit) by (nonlinear_arith);
    let whole: u128 = if 2 * rest > unit || (2 * rest == unit && q % 2 == 1) {
        (q + 1) * unit
    } else {
        q * unit
    };
    let up: u128 = (whole + 4294967295) / 4294967296;
    if up < 1 {
        1
    } else {
        up as u64
    }
}

/// The lengths of samples, added up.
pub open spec fn total_len(samples: Seq<Vec<u8>>) -> int
    decreases samples.len(),
{
    if samples.len() == 0 {
        0
    } else {
        total_len(samples.drop_last()) + samples.last()@.len()
    }
}

/// Whether a callback may hand out `sample` as the chunk with the given hash.
pub open spec fn hands_out<H, E, F: Fn(&[H]) -> Result<Vec<Vec<u8>>, E>>(
    get: &F,
    hash: H,
    sample: Vec<u8>,
) -> bool {
    exists|reply: Vec<Vec<u8>>| #[trigger]
        fetch::answers(get, seq![hash], reply) && reply@.len() > 0 && reply@[0] == sample
}

/// Whether chunk `i * step` exists and was handed out as the given sample.
pub open spec fn sampled_at<H, E, F: Fn(&[H]) -> Result<Vec<Vec<u8>>, E>>(
    get: &F,
    hashes: Seq<H>,
    step: int,
    i: int,
    sample: Vec<u8>,
) -> bool {
    i * step < hashes.len() && hands_out(get, hashes[i * step], sample)
}

/// Whether samples were handed out for the chunks `0`, `step`, `2 * step` and
/// so on.
pub open spec fn sampled<H, E, F: Fn(&[H]) -> Result<Vec<Vec<u8>>, E>>(
    get: &F,
    hashes: Seq<H>,
    step: int,
    samples: Seq<Vec<u8>>,
) -> bool {
    forall|i: int|
        0 <= i < samples.len() ==> sampled_at(get, hashes, step, i, #[trigger] samples[i])
}

/// Whether samples are all that are to be taken: there are no more chunks, or
/// the next one would be too much.
pub open spec fn sampling_ends<H, E, F: Fn(&[H]) -> Result<Vec<Vec<u8>>, E>>(
    get: &F,
    hashes: Seq<H>,
    step: int,
    samples: Seq<Vec<u8>>,
    limited: bool,
) -> bool {
    ||| samples.len() * step >= hashes.len()
    ||| limited && exists|next: Vec<u8>| #[trigger]
        hands_out(get, hashes[samples.len() * step], next) && total_len(samples) + next@.len()
            > MAX_SAMPLES_SIZE
}

/// Whether a buffer and a list of sizes hold the given samples.
pub open spec fn holds_samples(
    buffer: Seq<u8>,
    sizes: Seq<usize>,
    samples: Seq<Vec<u8>>,
) -> bool {
    &&& buffer == reconstruction::joined(samples)
    &&& sizes.len() == samples.len()
    &&& forall|i: int| 0 <= i < sizes.len() ==> #[trigger] sizes[i] == samples[i]@.len()
}

/// Every how manieth chunk is taken, given the size of all chunks.
pub open spec fn effective_step(total_data_size: u64) -> int {
    if total_data_size <= MAX_SAMPLES_SIZE {
        1
    } else {
        sampling_step(total_data_size as int)
    }
}

/// Whether a buffer and a list of sizes hold the samples that are to be taken.
pub open spec fn samples_gathered<H, E, F: Fn(&[H]) -> Result<Vec<Vec<u8>>, E>>(
    buffer: Seq<u8>,
    sizes: Seq<usize>,
    hashes: Seq<H>,
    total_data_size: u64,
    get: &F,
) -> bool {
    let step = effective_step(total_data_size);
    let limited = total_data_size > MAX_SAMPLES_SIZE;
    exists|samples: Seq<Vec<u8>>| #[trigger]
        holds_samples(buffer, sizes, samples) && sampled(get, hashes, step, samples)
            && sampling_ends(get, hashes, step, samples, limited) && (limited ==> total_len(samples)
            <= MAX_SAMPLES_SIZE)
}

/// Whether training a dictionary on the samples that are to be taken may yield
/// the given dictionary or error.
pub open spec fn trained<H, E, F: Fn(&[H]) -> Result<Vec<Vec<u8>>, E>>(
    r: Result<Vec<u8>, std::io::Error>,
    hashes: Seq<H>,
    total_data_size: u64,
    dictionary_size: usize,
    get: &F,
) -> bool {
    exists|samples: &[u8], sizes: &[usize]| #[trigger]
        archive::may_train(samples, sizes, dictionary_size, r) && samples_gathered(
            samples@,
            sizes@,
            hashes,
            total_data_size,
            get,
        )
}

/// Whether the given samples are taken, and the request for the next one is
/// refused with the given error.
pub open spec fn sampling_refused<H, E, F: Fn(&[H]) -> Result<Vec<Vec<u8>>, E>>(
    get: &F,
    hashes: Seq<H>,
    total_data_size: u64,
    samples: Seq<Vec<u8>>,
    e: E,
) -> bool {
    let step = effective_step(total_data_size);
    &&& sampled(get, hashes, step, samples)
    &&& total_data_size > MAX_SAMPLES_SIZE ==> total_len(samples) <= MAX_SAMPLES_SIZE
    &&& samples.len() * step < hashes.len()
    &&& fetch::refuses(get, seq![hashes[samples.len() * step]], e)
}

/// What gathering samples yields.
pub open spec fn samples_outcome<
    H,
    E: IsCancelled + std::fmt::Display,
    F: Fn(&[H]) -> Result<Vec<Vec<u8>>, E>,
>(
    r: Result<(Vec<u8>, Vec<usize>), ProcessingError>,
    hashes: Seq<H>,
    total_data_size: u64,
    get: &F,
) -> bool {
    match r {
        Ok(out) => samples_gathered(out.0@, out.1@, hashes, total_data_size, get),
        Err(ProcessingError::Cancelled) => exists|samples: Seq<Vec<u8>>, e: E| #[trigger]
            sampling_refused(get, hashes, total_data_size, samples, e) && fetch::stands_for_stop(e),
        Err(ProcessingError::External(m)) => exists|samples: Seq<Vec<u8>>, e: E| #[trigger]
            sampling_refused(get, hashes, total_data_size, samples, e)
                && fetch::stands_for_failure(e, m),
        _ => false,
    }
}

/// Whether no request for one of the chunks that samples are taken of is answered
/// with an empty list.
pub open spec fn samples_there<H, E, F: Fn(&[H]) -> Result<Vec<Vec<u8>>, E>>(
    get: &F,
    hashes: Seq<H>,
    total_data_size: u64,
) -> bool {
    forall|i: int, reply: Vec<Vec<u8>>|
        0 <= i < hashes.len() && i % effective_step(total_data_size) == 0
            && #[trigger] fetch::answers(get, seq![hashes[i]], reply) ==> reply@.len() > 0
}

/// Gathers samples for the training of a dictionary: all chunks where they fit
/// into the limit, else chunks at equal distances up to the limit. Returns the
/// samples end to end, and their lengths.
pub fn build_train_samples<E, F, H>(
    sorted_hashes: &[H],
    total_data_size: u64,
    target_dictionary_size: usize,
    get_chunk_data: &F,
) -> (r: Result<(Vec<u8>, Vec<usize>), ProcessingError>) where
    E: IsCancelled + std::fmt::Display,
    F: Fn(&[H]) -> Result<Vec<Vec<u8>>, E>,
    H: Copy,

    requires
        fetch::can_ask(get_chunk_data),
        samples_there(get_chunk_data, sorted_hashes@, total_data_size),
    ensures
        samples_outcome(r, sorted_hashes@, total_data_size, get_chunk_data),
{
    let limited = total_data_size > MAX_SAMPLES_SIZE;
    let step: u64 = if limited {
        compute_step(total_data_size)
    } else {
        1
    };
    let capacity: usize = if target_dictionary_size < CAPACITY_LIMIT {
        target_dictionary_size
    } else {
        CAPACITY_LIMIT
    };
    let mut buffer: Vec<u8> = Vec::with_capacity(capacity);
    let mut sizes: Vec<usize> = Vec::new();
    let ghost mut samples: Seq<Vec<u8>> = Seq::empty();
    let mut gathered: u64 = 0;
    let mut at: usize = 0;
    assert(reconstruction::joined(samples) =~= Seq::empty());
    while at < sorted_hashes.len()
        invariant
            at <= sorted_hashes@.len(),
            limited == (total_data_size > MAX_SAMPLES_SIZE),
            step == effective_step(total_data_size),
            step >= 1,
            at < sorted_hashes@.len() ==> at == samples.len() * step,
            at == sorted_hashes@.len() ==> samples.len() * step >= at,
            holds_samples(buffer@, sizes@, samples),
            sampled(get_chunk_data, sorted_hashes@, step as int, samples),
            limited ==> gathered == total_len(samples),
            limited ==> gathered <= MAX_SAMPLES_SIZE,
            fetch::can_ask(get_chunk_data),
            samples_there(get_chunk_data, sorted_hashes@, total_data_size),
        decreases sorted_hashes@.len() - at,
    {
        let hash = sorted_hashes[at];
        let request = [hash];
        assert(request@ =~= seq![hash]);
        let mut reply = match fetch::ask(get_chunk_data, request.as_slice(), 0, 1) {
            Ok(reply) => reply,
            Err(e) => {
                assert(request@.subrange(0, 1) =~= seq![hash]);
                assert(sampling_refused(
                    get_chunk_data,
                    sorted_hashes@,
                    total_data_size,
                    samples,
                    e,
                ));
                if e.is_cancelled() {
                    return Err(ProcessingError::Cancelled);
                }
                return Err(ProcessingError::External(e.to_string()));
            },
        };
        assert(request@.subrange(0, 1) =~= seq![hash]);
        proof {
            assert(fetch::answers(get_chunk_data, seq![sorted_hashes@[at as int]], reply));
            vstd::arithmetic::div_mod::lemma_mod_multiples_basic(samples.len() as int, step as int);
        }
        let sample = reply.remove(0);
        assert(hands_out(get_chunk_data, hash, sample));
        if limited {
            let size: u64 = sample.len() as u64;
            if size > MAX_SAMPLES_SIZE - gathered {
                assert(hands_out(
                    get_chunk_data,
                    sorted_hashes@[samples.len() * step],
                    sample,
                ));
                assert(sampling_ends(
                    get_chunk_data,
                    sorted_hashes@,
                    step as int,
                    samples,
                    limited,
                ));
                return Ok((buffer, sizes));
            }
            gathered = gathered + size;
        }
        let ghost before = samples;
        let ghost old_buffer = buffer@;
        sizes.push(sample.len());
        buffer.extend_from_slice(sample.as_slice());
        proof {
            assert(buffer@ =~= old_buffer + sample@);
            samples = samples.push(sample);
            assert(samples.drop_last() =~= before);
            reconstruction::lemma_joined_push(before, sample);
            assert forall|i: int| 0 <= i < samples.len() implies sampled_at(
                get_chunk_data,
                sorted_hashes@,
                step as int,
                i,
                #[trigger] samples[i],
            ) by {
                if i < before.len() {
                    assert(samples[i] == before[i]);
                }
            }
            assert((before.len() + 1) * step == before.len() * step + step) by (nonlinear_arith);
        }
        at = if step < (sorted_hashes.len() - at) as u64 {
            at + step as usize
        } else {
            sorted_hashes.len()
        };
    }
    Ok((buffer, sizes))
}

// ---------------------------------------------------------------------------
// Reading parts of files
// ---------------------------------------------------------------------------

/// The size of a file according to its manifest.
pub open spec fn manifest_size<H>(meta: Seq<SSAChunkMeta<H>>) -> int
    decreases meta.len(),
{
    if meta.len() == 0 {
        0
    } else {
        manifest_size(meta.drop_last()) + meta.last().length
    }
}

/// The part of a chunk that lies in `start..end` of the file.
pub open spec fn seek_piece<H>(m: SSAChunkMeta<H>, start: int, end: int) -> SeekMetadata<H> {
    SeekMetadata {
        hash: m.hash,
        start_offset: if start > m.offset {
            (start - m.offset) as u64
        } else {
            0
        },
        end_offset: if end - m.offset < m.length {
            (end - m.offset) as u64
        } else {
            m.length as u64
        },
    }
}

/// Whether a chunk reaches into `start..end` of the file.
pub open spec fn overlaps<H>(m: SSAChunkMeta<H>, start: int, end: int) -> bool {
    m.offset < end && m.offset + m.length > start
}

/// The parts of chunks that make up `start..end` of the file. The search ends
/// at the first chunk behind that range.
pub open spec fn seek_pieces<H>(meta: Seq<SSAChunkMeta<H>>, start: int, end: int) -> Seq<
    SeekMetadata<H>,
>
    decreases meta.len(),
{
    if meta.len() == 0 {
        Seq::empty()
    } else if overlaps(meta[0], start, end) {
        seq![seek_piece(meta[0], start, end)] + seek_pieces(meta.drop_first(), start, end)
    } else if meta[0].offset >= end {
        Seq::empty()
    } else {
        seek_pieces(meta.drop_first(), start, end)
    }
}

/// Sizes of manifests grow with their chunks.
proof fn lemma_manifest_size_grows<H>(meta: Seq<SSAChunkMeta<H>>, n: int)
    requires
        0 <= n <= meta.len(),
    ensures
        0 <= manifest_size(meta.take(n)) <= manifest_size(meta),
    decreases meta.len(),
{
    if n == meta.len() {
        assert(meta.take(n) =~= meta);
        if meta.len() > 0 {
            lemma_manifest_size_grows(meta.drop_last(), meta.len() - 1);
            assert(meta.drop_last().take(meta.len() - 1) =~= meta.drop_last());
        }
    } else {
        lemma_manifest_size_grows(meta.drop_last(), n);
        assert(meta.drop_last().take(n) =~= meta.take(n));
    }
}

/// Finds the parts of chunks that make up a range of a file.
pub fn get_seek_chunks<H: Copy>(
    manifest: &FileManifestParent<H>,
    seek_offset: u64,
    seek_length: u64,
) -> (r: Result<Vec<SeekMetadata<H>>, SpriteShrinkError>)
    requires
        manifest_size(manifest.chunk_metadata@) <= u64::MAX,
        seek_offset + seek_length <= u64::MAX,
    ensures
        seek_offset + seek_length > manifest_size(manifest.chunk_metadata@) ==> (r matches Err(
            SpriteShrinkError::Processing(ProcessingError::SeekOutOfBounds(m)),
        ) && m@ == "Seek request is outside the bounds of the original file."@),
        seek_offset + seek_length <= manifest_size(manifest.chunk_metadata@) ==> (r matches Ok(
            pieces,
        ) && pieces@ == seek_pieces(
            manifest.chunk_metadata@,
            seek_offset as int,
            seek_offset + seek_length,
        )),
{
    let ghost meta = manifest.chunk_metadata@;
    let mut file_size: u64 = 0;
    let mut i: usize = 0;
    assert(meta.take(0) =~= Seq::empty());
    while i < manifest.chunk_metadata.len()
        invariant
            meta == manifest.chunk_metadata@,
            i <= meta.len(),
            manifest_size(meta) <= u64::MAX,
            file_size == manifest_size(meta.take(i as int)),
        decreases meta.len() - i,
    {
        proof {
            lemma_manifest_size_grows(meta, i + 1);
            assert(meta.take(i + 1).drop_last() =~= meta.take(i as int));
        }
        file_size = file_size + manifest.chunk_metadata[i].length as u64;
        i += 1;
    }
    assert(meta.take(i as int) =~= meta);
    if seek_offset + seek_length > file_size {
        return Err(
            SpriteShrinkError::Processing(
                ProcessingError::SeekOutOfBounds(
                    "Seek request is outside the bounds of the original file.".to_string(),
                ),
            ),
        );
    }
    let seek_end: u64 = seek_offset + seek_length;
    let mut pieces: Vec<SeekMetadata<H>> = Vec::new();
    let ghost wanted = seek_pieces(meta, seek_offset as int, seek_end as int);
    let mut n: usize = 0;
    assert(meta.skip(0) =~= meta);
    assert(pieces@ + wanted =~= wanted);
    while n < manifest.chunk_metadata.len()
        invariant
            meta == manifest.chunk_metadata@,
            n <= meta.len(),
            seek_end == seek_offset + seek_length,
            seek_end <= manifest_size(meta),
            wanted == seek_pieces(meta, seek_offset as int, seek_end as int),
            pieces@ + seek_pieces(meta.skip(n as int), seek_offset as int, seek_end as int)
                == wanted,
        decreases meta.len() - n,
    {
        let m = manifest.chunk_metadata[n];
        assert(meta.skip(n as int).drop_first() =~= meta.skip(n + 1));
        let chunk_end: u128 = m.offset as u128 + m.length as u128;
        if m.offset < seek_end && chunk_end > seek_offset as u128 {
            let start_in_chunk: u64 = if seek_offset > m.offset {
                seek_offset - m.offset
            } else {
                0
            };
            let end_in_chunk: u64 = if seek_end - m.offset < m.length as u64 {
                seek_end - m.offset
            } else {
                m.length as u64
            };
            let ghost before = pieces@;
            pieces.push(SeekMetadata::new(m.hash, start_in_chunk, end_in_chunk));
            assert(pieces@ + seek_pieces(meta.skip(n + 1), seek_offset as int, seek_end as int)
                =~= before + seek_pieces(
                meta.skip(n as int),
                seek_offset as int,
                seek_end as int,
            ));
        } else if m.offset >= seek_end {
            assert(pieces@ + seek_pieces(meta.skip(n as int), seek_offset as int, seek_end as int)
                =~= pieces@);
            return Ok(pieces);
        }
        n += 1;
    }
    assert(meta.skip(n as int) =~= Seq::empty());
    assert(pieces@ + seek_pieces(meta.skip(n as int), seek_offset as int, seek_end as int)
        =~= pieces@);
    Ok(pieces)
}

/// Whether the chunks of a manifest follow each other without gap from position
/// `from` on to the end of a file.
pub open spec fn continues<H>(meta: Seq<SSAChunkMeta<H>>, from: int, n: int) -> bool
    decreases meta.len(),
{
    if meta.len() == 0 {
        from == n
    } else {
        meta[0].offset == from && meta[0].length >= 1 && continues(
            meta.drop_first(),
            from + meta[0].length,
            n,
        )
    }
}

/// The manifest of a file covers it: its chunks follow each other from the start
/// of the file to its end, and their lengths add up to the file's.
pub proof fn law_manifest_covers_the_file<H: Hashable>(
    file: Seq<u8>,
    chunks: Seq<Chunk>,
    max_size: int,
)
    requires
        tiles(chunks, file.len() as int, max_size),
        max_size <= u32::MAX,
    ensures
        continues(
            chunks.map_values(|c: Chunk| chunk_meta::<H>(file, c)),
            0,
            file.len() as int,
        ),
        manifest_size(chunks.map_values(|c: Chunk| chunk_meta::<H>(file, c))) == file.len(),
{
    let meta = chunks.map_values(|c: Chunk| chunk_meta::<H>(file, c));
    assert(meta.skip(0) =~= meta);
    assert(meta.take(meta.len() as int) =~= meta);
    lemma_manifest_continues::<H>(file, chunks, max_size, 0);
    lemma_manifest_sizes::<H>(file, chunks, max_size, chunks.len() as int);
}

proof fn lemma_manifest_continues<H: Hashable>(
    file: Seq<u8>,
    chunks: Seq<Chunk>,
    max_size: int,
    n: int,
)
    requires
        tiles(chunks, file.len() as int, max_size),
        max_size <= u32::MAX,
        0 <= n <= chunks.len(),
    ensures
        continues(
            chunks.map_values(|c: Chunk| chunk_meta::<H>(file, c)).skip(n),
            if n < chunks.len() {
                chunks[n].offset as int
            } else {
                file.len() as int
            },
            file.len() as int,
        ),
    decreases chunks.len() - n,
{
    let meta = chunks.map_values(|c: Chunk| chunk_meta::<H>(file, c));
    if n < chunks.len() {
        lemma_manifest_continues::<H>(file, chunks, max_size, n + 1);
        assert(meta.skip(n).drop_first() =~= meta.skip(n + 1));
        assert(meta.skip(n)[0] == chunk_meta::<H>(file, chunks[n]));
        assert(chunks[n].length <= max_size);
        if n + 1 < chunks.len() {
            assert(chunks[n].offset + chunks[n].length == chunks[n + 1].offset);
        }
    }
}

proof fn lemma_manifest_sizes<H: Hashable>(
    file: Seq<u8>,
    chunks: Seq<Chunk>,
    max_size: int,
    n: int,
)
    requires
        tiles(chunks, file.len() as int, max_size),
        max_size <= u32::MAX,
        0 <= n <= chunks.len(),
    ensures
        manifest_size(chunks.map_values(|c: Chunk| chunk_meta::<H>(file, c)).take(n)) == if n > 0 {
            chunks[n - 1].offset + chunks[n - 1].length
        } else {
            0
        },
        n == chunks.len() ==> manifest_size(
            chunks.map_values(|c: Chunk| chunk_meta::<H>(file, c)).take(n),
        ) == file.len(),
    decreases n,
{
    let meta = chunks.map_values(|c: Chunk| chunk_meta::<H>(file, c));
    if n > 0 {
        lemma_manifest_sizes::<H>(file, chunks, max_size, n - 1);
        assert(meta.take(n).drop_last() =~= meta.take(n - 1));
        assert(meta.take(n).last() == chunk_meta::<H>(file, chunks[n - 1]));
        assert(chunks[n - 1].length <= max_size);
        if n > 1 {
            assert(chunks[n - 2].offset + chunks[n - 2].length == chunks[n - 1].offset);
        }
    }
}

/// The bytes that a list of pieces stands for, if each piece is cut out of the
/// bytes that the chunk of its hash has.
pub open spec fn pieces_bytes<H>(pieces: Seq<SeekMetadata<H>>, chunk_of: spec_fn(H) -> Seq<u8>) -> Seq<
    u8,
>
    decreases pieces.len(),
{
    if pieces.len() == 0 {
        Seq::empty()
    } else {
        chunk_of(pieces[0].hash).subrange(
            pieces[0].start_offset as int,
            pieces[0].end_offset as int,
        ) + pieces_bytes(pieces.drop_first(), chunk_of)
    }
}

/// A seek request is answered with the bytes asked for: the pieces, cut out of
/// the chunks and put end to end, are that range of the file. It takes a
/// manifest whose chunks tile the file and hashes that tell the chunks apart.
pub proof fn law_seek_pieces_are_the_range<H>(
    file: Seq<u8>,
    meta: Seq<SSAChunkMeta<H>>,
    chunk_of: spec_fn(H) -> Seq<u8>,
    start: int,
    end: int,
)
    requires
        continues(meta, 0, file.len() as int),
        0 <= start <= end <= file.len() <= u64::MAX,
        forall|i: int|
            0 <= i < meta.len() ==> chunk_of((#[trigger] meta[i]).hash) == file.subrange(
                meta[i].offset as int,
                meta[i].offset + meta[i].length,
            ),
    ensures
        pieces_bytes(seek_pieces(meta, start, end), chunk_of) == file.subrange(start, end),
{
    lemma_seek(file, meta, chunk_of, 0, start, end);
    if start < end {
        assert(file.subrange(start, end) =~= file.subrange(if start > 0 { start } else { 0 }, end));
    }
}

proof fn lemma_continues_bound<H>(meta: Seq<SSAChunkMeta<H>>, from: int, n: int)
    requires
        continues(meta, from, n),
    ensures
        from + meta.len() <= n,
        meta.len() > 0 ==> meta[0].offset + meta[0].length <= n,
    decreases meta.len(),
{
    if meta.len() > 0 {
        lemma_continues_bound(meta.drop_first(), from + meta[0].length, n);
    }
}

proof fn lemma_seek<H>(
    file: Seq<u8>,
    meta: Seq<SSAChunkMeta<H>>,
    chunk_of: spec_fn(H) -> Seq<u8>,
    from: int,
    start: int,
    end: int,
)
    requires
        0 <= from,
        continues(meta, from, file.len() as int),
        0 <= start <= end <= file.len() <= u64::MAX,
        forall|i: int|
            0 <= i < meta.len() ==> chunk_of((#[trigger] meta[i]).hash) == file.subrange(
                meta[i].offset as int,
                meta[i].offset + meta[i].length,
            ),
    ensures
        ({
            let low = if start > from {
                start
            } else {
                from
            };
            pieces_bytes(seek_pieces(meta, start, end), chunk_of) == (if low < end {
                file.subrange(low, end)
            } else {
                Seq::empty()
            })
        }),
    decreases meta.len(),
{
    let low = if start > from {
        start
    } else {
        from
    };
    if meta.len() == 0 {
        assert(pieces_bytes(seek_pieces(meta, start, end), chunk_of) =~= Seq::empty());
    } else {
        let m = meta[0];
        let rest = meta.drop_first();
        let next = from + m.length;
        assert forall|i: int| 0 <= i < rest.len() implies chunk_of((#[trigger] rest[i]).hash)
            == file.subrange(rest[i].offset as int, rest[i].offset + rest[i].length) by {
            assert(rest[i] == meta[i + 1]);
        }
        lemma_continues_bound(meta, from, file.len() as int);
        lemma_seek(file, rest, chunk_of, next, start, end);
        let others = seek_pieces(rest, start, end);
        if overlaps(m, start, end) {
            let piece = seek_piece(m, start, end);
            let all = seq![piece] + others;
            assert(all.drop_first() =~= others);
            assert(all[0] == piece);
            let low_next = if start > next {
                start
            } else {
                next
            };
            let bytes = chunk_of(m.hash).subrange(
                piece.start_offset as int,
                piece.end_offset as int,
            );
            let cut = from + piece.end_offset;
            assert(chunk_of(meta[0].hash) == file.subrange(from, from + m.length));
            assert(bytes =~= file.subrange(from + piece.start_offset, cut));
            if low < end {
                assert(from + piece.start_offset == low);
                assert(pieces_bytes(all, chunk_of) =~= file.subrange(low, end));
            } else {
                assert(pieces_bytes(all, chunk_of) =~= Seq::empty());
            }
        }
    }
}

// ---------------------------------------------------------------------------
// Estimating compressed sizes
// ---------------------------------------------------------------------------

/// The highest level that an estimate is made at.
pub const MAX_TEST_LEVEL: i32 = 7;

/// The level that an estimate is made at.
pub open spec fn test_level(level: i32) -> i32 {
    if level < MAX_TEST_LEVEL {
        level
    } else {
        MAX_TEST_LEVEL
    }
}

/// Whether a size is that of a dictionary trained on samples together with all
/// chunks compressed with it.
pub open spec fn is_compressed_size<
    H: Hashable,
    E: IsCancelled + std::fmt::Display,
    F: Fn(&[H]) -> Result<Vec<Vec<u8>>, E>,
>(
    size: int,
    hashes: Seq<H>,
    total_data_size: u64,
    dictionary_size: usize,
    level: i32,
    get: &F,
) -> bool {
    exists|dict: Vec<u8>, frames: Seq<Seq<u8>>| #[trigger]
        archive::all_frames(&(ListSource { get }), dict@, level, hashes, frames) && trained(
            Ok(dict),
            hashes,
            total_data_size,
            dictionary_size,
            get,
        ) && size == dict@.len() + archive::frames_len(frames, frames.len() as int)
}

/// Whether compressing with a dictionary trained on samples may end with the
/// given error.
pub open spec fn compression_failed<
    H: Hashable,
    E: IsCancelled + std::fmt::Display,
    F: Fn(&[H]) -> Result<Vec<Vec<u8>>, E>,
>(
    e: ArchiveError,
    hashes: Seq<H>,
    total_data_size: u64,
    dictionary_size: usize,
    level: i32,
    get: &F,
) -> bool {
    exists|dict: Vec<u8>, later: CountSink| #[trigger]
        archive::compress_outcome(
            Err(e),
            &(ListSource { get }),
            (CountSink { size: 0 }),
            later,
            dict@,
            level,
            hashes,
        ) && trained(Ok(dict), hashes, total_data_size, dictionary_size, get)
}

/// Whether training a dictionary may fail with the given text.
pub open spec fn training_failed<H, E, F: Fn(&[H]) -> Result<Vec<Vec<u8>>, E>>(
    text: String,
    hashes: Seq<H>,
    total_data_size: u64,
    dictionary_size: usize,
    get: &F,
) -> bool {
    exists|e: std::io::Error| #[trigger]
        fetch::has_text(e, text) && trained(
            Err(e),
            hashes,
            total_data_size,
            dictionary_size,
            get,
        )
}

/// Whether the compressed size is too much for a `usize`.
pub open spec fn size_too_large<
    H: Hashable,
    E: IsCancelled + std::fmt::Display,
    F: Fn(&[H]) -> Result<Vec<Vec<u8>>, E>,
>(
    hashes: Seq<H>,
    total_data_size: u64,
    dictionary_size: usize,
    level: i32,
    get: &F,
) -> bool {
    exists|size: int|
        size > usize::MAX && #[trigger] is_compressed_size(
            size,
            hashes,
            total_data_size,
            dictionary_size,
            level,
            get,
        )
}

/// What estimating a compressed size yields.
pub open spec fn test_outcome<
    H: Hashable,
    E: IsCancelled + std::fmt::Display,
    F: Fn(&[H]) -> Result<Vec<Vec<u8>>, E>,
>(
    r: Result<usize, SpriteShrinkError>,
    hashes: Seq<H>,
    total_data_size: u64,
    dictionary_size: usize,
    level: i32,
    get: &F,
) -> bool {
    match r {
        Ok(size) => is_compressed_size(
            size as int,
            hashes,
            total_data_size,
            dictionary_size,
            test_level(level),
            get,
        ),
        Err(SpriteShrinkError::Processing(ProcessingError::DictionaryError(text))) => {
            training_failed(text, hashes, total_data_size, dictionary_size, get)
        },
        Err(SpriteShrinkError::Processing(e)) => samples_outcome(
            Err(e),
            hashes,
            total_data_size,
            get,
        ),
        Err(SpriteShrinkError::Archive(e)) => compression_failed(
            e,
            hashes,
            total_data_size,
            dictionary_size,
            test_level(level),
            get,
        ) || (e is CompressionError && size_too_large(
            hashes,
            total_data_size,
            dictionary_size,
            test_level(level),
            get,
        )),
        _ => false,
    }
}

/// Estimates how large an archive's data will be: trains a dictionary on
/// samples of the chunks, compresses all chunks with it, at level 7 at most, and
/// adds up the sizes of dictionary and compressed chunks.
pub fn test_compression<E, F, H>(
    sorted_hashes: &[H],
    total_data_size: u64,
    _worker_count: usize,
    dictionary_size: usize,
    compression_level: i32,
    get_chunk_data: F,
) -> (r: Result<usize, SpriteShrinkError>) where
    E: IsCancelled + std::fmt::Display,
    F: Fn(&[H]) -> Result<Vec<Vec<u8>>, E>,
    H: Hashable,

    requires
        fetch::can_ask(&get_chunk_data),
        samples_there(&get_chunk_data, sorted_hashes@, total_data_size),
        archive::never_more(&get_chunk_data, sorted_hashes@),
        dictionary_size <= isize::MAX,
    ensures
        test_outcome(
            r,
            sorted_hashes@,
            total_data_size,
            dictionary_size,
            compression_level,
            &get_chunk_data,
        ),
{
    let (samples, sizes) = match build_train_samples(
        sorted_hashes,
        total_data_size,
        dictionary_size,
        &get_chunk_data,
    ) {
        Ok(gathered) => gathered,
        Err(e) => return Err(SpriteShrinkError::Processing(e)),
    };
    let outcome = train_dictionary(samples.as_slice(), sizes.as_slice(), dictionary_size);
    assert(trained(outcome, sorted_hashes@, total_data_size, dictionary_size, &get_chunk_data));
    let dictionary = match outcome {
        Ok(dictionary) => dictionary,
        Err(e) => {
            let text = e.to_string();
            assert(fetch::has_text(e, text));
            assert(training_failed(
                text,
                sorted_hashes@,
                total_data_size,
                dictionary_size,
                &get_chunk_data,
            ));
            return Err(SpriteShrinkError::Processing(ProcessingError::DictionaryError(text)));
        },
    };
    let level: i32 = if compression_level < MAX_TEST_LEVEL {
        compression_level
    } else {
        MAX_TEST_LEVEL
    };
    let source = ListSource { get: &get_chunk_data };
    let mut sink = CountSink { size: 0 };
    let ghost before = sink;
    match run_compression(dictionary.as_slice(), sorted_hashes, level, &source, &mut sink) {
        Ok(_) => {},
        Err(e) => {
            assert(archive::compress_outcome(
                Err(e),
                &source,
                before,
                sink,
                dictionary@,
                level,
                sorted_hashes@,
            ));
            assert(compression_failed(
                e,
                sorted_hashes@,
                total_data_size,
                dictionary_size,
                level,
                &get_chunk_data,
            ));
            return Err(SpriteShrinkError::Archive(e));
        },
    }
    assert(is_compressed_size(
        dictionary@.len() + sink.size,
        sorted_hashes@,
        total_data_size,
        dictionary_size,
        level,
        &get_chunk_data,
    ));
    if sink.size > usize::MAX - dictionary.len() {
        assert(size_too_large(
            sorted_hashes@,
            total_data_size,
            dictionary_size,
            level,
            &get_chunk_data,
        ));
        return Err(
            SpriteShrinkError::Archive(
                ArchiveError::CompressionError("The compressed data is too large.".to_string()),
            ),
        );
    }
    Ok(dictionary.len() + sink.size)
}

/// Samples are taken as densely as the limit lets them: where all chunks fit, every
/// one is taken, and else the distance is the least at which the total, evenly
/// spread, would fit. It takes a total that is counted exactly.
pub proof fn law_sampling_is_as_dense_as_it_can_be(total: u64)
    requires
        total < 9007199254740992,
    ensures
        total <= 4294967296 ==> effective_step(total) == 1,
        total > 4294967296 ==> effective_step(total) >= 2 && 4294967296 * (effective_step(total)
            - 1) < total <= 4294967296 * effective_step(total),
{
    assert(counting_unit(total as int, 1) == 1);
    assert(rounded(total as int) == total);
}

/// Where all chunks fit into the limit, every chunk is a sample: the samples are
/// what was handed out for the hashes, in order, one for each.
pub proof fn law_small_data_is_sampled_whole<H, E, F: Fn(&[H]) -> Result<Vec<Vec<u8>>, E>>(
    buffer: Seq<u8>,
    sizes: Seq<usize>,
    hashes: Seq<H>,
    total_data_size: u64,
    get: &F,
)
    requires
        total_data_size <= 4294967296,
        samples_gathered(buffer, sizes, hashes, total_data_size, get),
    ensures
        sizes.len() == hashes.len(),
        exists|samples: Seq<Vec<u8>>| #[trigger]
            holds_samples(buffer, sizes, samples) && forall|i: int|
                0 <= i < hashes.len() ==> hands_out(get, hashes[i], #[trigger] samples[i]),
{
    let samples = choose|samples: Seq<Vec<u8>>| #[trigger]
        holds_samples(buffer, sizes, samples) && sampled(get, hashes, 1, samples)
            && sampling_ends(get, hashes, 1, samples, false);
    assert(samples.len() * 1 == samples.len()) by (nonlinear_arith);
    if samples.len() > hashes.len() {
        let i = hashes.len() as int;
        assert(sampled_at(get, hashes, 1, i, samples[i]));
        assert(i * 1 == i) by (nonlinear_arith);
    }
    assert forall|i: int| 0 <= i < hashes.len() implies hands_out(
        get,
        hashes[i],
        #[trigger] samples[i],
    ) by {
        assert(sampled_at(get, hashes, 1, i, samples[i]));
        assert(i * 1 == i) by (nonlinear_arith);
    }
}

proof fn lemma_joined_len(samples: Seq<Vec<u8>>)
    ensures
        reconstruction::joined(samples).len() == total_len(samples),
    decreases samples.len(),
{
    if samples.len() > 0 {
        lemma_joined_len(samples.drop_last());
        reconstruction::lemma_joined_push(samples.drop_last(), samples.last());
        assert(samples.drop_last().push(samples.last()) =~= samples);
    } else {
        assert(samples =~= Seq::empty());
    }
}

proof fn lemma_sizes_total(sizes: Seq<usize>, samples: Seq<Vec<u8>>)
    requires
        sizes.len() == samples.len(),
        forall|i: int| 0 <= i < sizes.len() ==> #[trigger] sizes[i] == samples[i]@.len(),
    ensures
        archive::sizes_total(sizes) == total_len(samples),
    decreases sizes.len(),
{
    if sizes.len() > 0 {
        let a = sizes.drop_last();
        let b = samples.drop_last();
        assert forall|i: int| 0 <= i < a.len() implies #[trigger] a[i] == b[i]@.len() by {
            assert(a[i] == sizes[i] && b[i] == samples[i]);
        }
        lemma_sizes_total(a, b);
        assert(sizes[sizes.len() - 1] == samples[samples.len() - 1]@.len());
    }
}

/// The lengths that go with samples add up to them, and where not all chunks fit,
/// the samples stay within the limit.
pub proof fn law_samples_stay_within_the_limit<H, E, F: Fn(&[H]) -> Result<Vec<Vec<u8>>, E>>(
    buffer: Seq<u8>,
    sizes: Seq<usize>,
    hashes: Seq<H>,
    total_data_size: u64,
    get: &F,
)
    requires
        samples_gathered(buffer, sizes, hashes, total_data_size, get),
    ensures
        archive::sizes_total(sizes) == buffer.len(),
        total_data_size > 4294967296 ==> buffer.len() <= 4294967296,
{
    let step = effective_step(total_data_size);
    let limited = total_data_size > MAX_SAMPLES_SIZE;
    let samples = choose|samples: Seq<Vec<u8>>| #[trigger]
        holds_samples(buffer, sizes, samples) && sampled(get, hashes, step, samples)
            && sampling_ends(get, hashes, step, samples, limited) && (limited ==> total_len(samples)
            <= MAX_SAMPLES_SIZE);
    lemma_joined_len(samples);
    lemma_sizes_total(sizes, samples);
}

/// An estimate is made at the level asked for, but at no higher one than 7.
pub proof fn law_estimates_are_made_at_low_levels(level: i32)
    ensures
        test_level(level) <= level,
        test_level(level) <= 7,
        test_level(level) == level || test_level(level) == 7,
{
}

/// A window size from 256 bytes to four megabytes can be used. It is the average
/// size that chunks are cut for, with a quarter of it as the least and four times as
/// much as the greatest.
pub proof fn law_window_gives_the_sizes(data: Seq<u8>, seed: u64, window_size: u64)
    requires
        window_size < 4294967296,
    ensures
        window_fits(window_size) <==> 256 <= window_size <= 4194304,
        window_fits(window_size) ==> window_cuts(data, seed, window_size) == cut_points(
            data,
            (window_size / 4) as u32,
            window_size as u32,
            (4 * window_size) as u32,
            seed,
        ),
{
}

/// Whether every request for the chunks of a file is answered with these chunks, if
/// it is answered.
pub open spec fn hands_out_chunks<H, E, D: Fn(&[H]) -> Result<Vec<Vec<u8>>, E>>(
    get: &D,
    hashes: Seq<H>,
    file: Seq<u8>,
    chunks: Seq<Chunk>,
) -> bool {
    forall|j: int, reply: Vec<Vec<u8>>|
        0 <= j && 64 * j < hashes.len() && #[trigger] fetch::answers(
            get,
            fetch::batch(hashes, 64, j),
            reply,
        ) ==> holds_chunks(reply@, file, chunks, j)
}

/// The digest decides whether a file checks out: a file whose chunks are handed out
/// is never reported as damaged under its own digest, and does not pass under any
/// other.
pub proof fn law_digest_decides<
    H,
    E: IsCancelled + std::fmt::Display,
    D: Fn(&[H]) -> Result<Vec<Vec<u8>>, E>,
    P: FnMut(u64),
>(
    r: Result<(), SpriteShrinkError>,
    title: Seq<char>,
    hashes: Seq<H>,
    veri_hash: Seq<u8>,
    get: &D,
    file: Seq<u8>,
    chunks: Seq<Chunk>,
    max_size: int,
)
    requires
        tiles(chunks, file.len() as int, max_size),
        hashes.len() == chunks.len(),
        hands_out_chunks(get, hashes, file, chunks),
    ensures
        verify_outcome::<H, E, D, P>(r, title, hashes, veri_hash, get) ==> {
            &&& veri_hash == hashing::sha512(file) ==> !(r matches Err(
                SpriteShrinkError::Processing(_),
            ))
            &&& veri_hash != hashing::sha512(file) ==> r is Err
            &&& r matches Err(SpriteShrinkError::Processing(ProcessingError::HashMismatchError(t)))
                ==> t@ == title
        },
{
    if verify_outcome::<H, E, D, P>(r, title, hashes, veri_hash, get) {
        assert forall|replies: Seq<Vec<Vec<u8>>>| #[trigger]
            file_read::<H, E, D, P>(get, hashes, replies) implies fetch::content(replies)
            == file by {
            assert forall|j: int| 0 <= j < replies.len() implies holds_chunks(
                (#[trigger] replies[j])@,
                file,
                chunks,
                j,
            ) by {
                assert(fetch::answers(get, fetch::batch(hashes, 64, j), replies[j]));
                assert(64 * (replies.len() - 1) < hashes.len());
            }
            law_own_chunks_check_out(file, chunks, max_size, replies);
        }
    }
}

/// A piece of a chunk that answers a read request is not empty and lies within its
/// chunk.
pub proof fn law_seek_pieces_are_not_empty<H>(
    meta: Seq<SSAChunkMeta<H>>,
    start: int,
    end: int,
    k: int,
)
    requires
        0 <= start < end <= u64::MAX,
        forall|i: int| 0 <= i < meta.len() ==> (#[trigger] meta[i]).length > 0,
        0 <= k < seek_pieces(meta, start, end).len(),
    ensures
        seek_pieces(meta, start, end)[k].start_offset < seek_pieces(meta, start, end)[k].end_offset,
        exists|i: int|
            0 <= i < meta.len() && (#[trigger] meta[i]).hash == seek_pieces(meta, start, end)[k].hash
                && seek_pieces(meta, start, end)[k].end_offset <= meta[i].length,
    decreases meta.len(),
{
    if meta.len() > 0 {
        let rest = meta.drop_first();
        assert forall|i: int| 0 <= i < rest.len() implies (#[trigger] rest[i]).length > 0 by {
            assert(rest[i] == meta[i + 1]);
        }
        let more = seek_pieces(rest, start, end);
        if overlaps(meta[0], start, end) && k == 0 {
            assert(meta[0].length > 0);
            assert(seek_pieces(meta, start, end)[0] == seek_piece(meta[0], start, end));
        } else {
            let l = if overlaps(meta[0], start, end) {
                k - 1
            } else {
                k
            };
            assert(seek_pieces(meta, start, end)[k] == more[l]);
            law_seek_pieces_are_not_empty(rest, start, end, l);
            let i = choose|i: int|
                0 <= i < rest.len() && (#[trigger] rest[i]).hash == more[l].hash
                    && more[l].end_offset <= rest[i].length;
            assert(meta[i + 1] == rest[i]);
        }
    }
}

/// Whether samples were handed out for the chunks at equal distances, the first chunk
/// included, until there were no more chunks or the next one would have been too much.
pub open spec fn at_equal_distances<H, E, F: Fn(&[H]) -> Result<Vec<Vec<u8>>, E>>(
    get: &F,
    hashes: Seq<H>,
    step: int,
    samples: Seq<Vec<u8>>,
    size: int,
) -> bool {
    &&& forall|i: int|
        0 <= i < samples.len() ==> is_chunk_at(get, hashes, i * step, #[trigger] samples[i])
    &&& samples.len() * step >= hashes.len() || is_too_much(
        get,
        hashes[samples.len() * step],
        size,
    )
}

/// Whether there is a chunk at the given place and the sample may be handed out for it.
pub open spec fn is_chunk_at<H, E, F: Fn(&[H]) -> Result<Vec<Vec<u8>>, E>>(
    get: &F,
    hashes: Seq<H>,
    at: int,
    sample: Vec<u8>,
) -> bool {
    0 <= at < hashes.len() && hands_out(get, hashes[at], sample)
}

/// Whether a chunk may be handed out that is too much for samples of the given size.
pub open spec fn is_too_much<H, E, F: Fn(&[H]) -> Result<Vec<Vec<u8>>, E>>(
    get: &F,
    hash: H,
    size: int,
) -> bool {
    exists|next: Vec<u8>| #[trigger]
        hands_out(get, hash, next) && size + next@.len() > 4294967296
}

proof fn lemma_at_equal_distances<H, E, F: Fn(&[H]) -> Result<Vec<Vec<u8>>, E>>(
    get: &F,
    hashes: Seq<H>,
    step: int,
    samples: Seq<Vec<u8>>,
    limited: bool,
)
    requires
        step >= 1,
        sampled(get, hashes, step, samples),
        sampling_ends(get, hashes, step, samples, limited),
    ensures
        at_equal_distances(get, hashes, step, samples, total_len(samples)),
{
    assert forall|i: int| 0 <= i < samples.len() implies is_chunk_at(
        get,
        hashes,
        i * step,
        #[trigger] samples[i],
    ) by {
        assert(sampled_at(get, hashes, step, i, samples[i]));
        assert(0 <= i * step) by (nonlinear_arith)
            requires
                0 <= i,
                step >= 1,
        ;
    }
    let at = samples.len() * step;
    if at < hashes.len() {
        let hash = hashes[at];
        assert(limited && exists|next: Vec<u8>| #[trigger]
            hands_out(get, hash, next) && total_len(samples) + next@.len() > MAX_SAMPLES_SIZE);
        let next = choose|next: Vec<u8>| #[trigger]
            hands_out(get, hash, next) && total_len(samples) + next@.len() > MAX_SAMPLES_SIZE;
        assert(hands_out(get, hash, next));
        assert(is_too_much(get, hash, total_len(samples)));
    }
}

/// Samples are taken at equal distances from the first chunk on, until there are no
/// more chunks or the next sample would be too much.
pub proof fn law_samples_are_taken_at_equal_distances<
    H,
    E,
    F: Fn(&[H]) -> Result<Vec<Vec<u8>>, E>,
>(buffer: Seq<u8>, sizes: Seq<usize>, hashes: Seq<H>, total_data_size: u64, get: &F)
    requires
        samples_gathered(buffer, sizes, hashes, total_data_size, get),
    ensures
        exists|samples: Seq<Vec<u8>>| #[trigger]
            holds_samples(buffer, sizes, samples) && at_equal_distances(
                get,
                hashes,
                effective_step(total_data_size),
                samples,
                buffer.len() as int,
            ),
{
    let step = effective_step(total_data_size);
    let limited = total_data_size > MAX_SAMPLES_SIZE;
    let samples = choose|samples: Seq<Vec<u8>>| #[trigger]
        holds_samples(buffer, sizes, samples) && sampled(get, hashes, step, samples)
            && sampling_ends(get, hashes, step, samples, limited) && (limited ==> total_len(samples)
            <= MAX_SAMPLES_SIZE);
    lemma_joined_len(samples);
    lemma_at_equal_distances(get, hashes, step, samples, limited);
}

} // verus!
