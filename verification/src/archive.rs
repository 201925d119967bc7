//! Compressing chunks and assembling archives.

use std::collections::HashMap;
use std::marker::PhantomData;
use vstd::prelude::*;
use crate::codec::ArchiveHash;
use crate::error::{IsCancelled, SpriteShrinkError};
use crate::fetch;
use crate::hashing::Hashable;
use crate::processing;
use crate::processing::{build_train_samples, ProcessingError};
use crate::structs::{ChunkLocation, CompressionResult, Progress};

verus! {

/// Why an archive could not be assembled.
#[derive(Debug)]
pub enum ArchiveError {
    Io(std::io::Error),
    CompressionError(String),
    Dictionary(String),
    ThreadPool(String),
    ManifestEncodeError(String),
    WorkerError(String),
    IndexEncodeError(String),
    ProcessingError(ProcessingError),
    ZstdError(String),
    ThreadPoolError(String),
    External(String),
    Cancelled,
}

// ---------------------------------------------------------------------------
// Zstandard
// ---------------------------------------------------------------------------

/// The Zstandard frame that a byte string is compressed to with a dictionary at
/// a level.
pub uninterp spec fn zstd_frame(payload: Seq<u8>, dict: Seq<u8>, level: i32) -> Seq<u8>;

/// What Zstandard frames decompress to with a dictionary, if they do.
pub uninterp spec fn zstd_content(frames: Seq<u8>, dict: Seq<u8>) -> Option<Seq<u8>>;

/// `zstd::stream::Encoder` made by `with_dictionary`, fed by `write_all` and
/// closed by `finish`: where it succeeds, the frame is a function of the
/// arguments, and decompressing it with the same dictionary gives the payload
/// back. Nothing is claimed of when it succeeds: an ill-formed dictionary or a
/// want of memory make it fail.
#[verifier::external_body]
fn zstd_compress(payload: &[u8], dict: &[u8], level: i32) -> (r: Result<Vec<u8>, std::io::Error>)
    ensures
        r matches Ok(frame) ==> frame@ == zstd_frame(payload@, dict@, level) && zstd_content(
            frame@,
            dict@,
        ) == Some(payload@),
{
    let mut frame: Vec<u8> = Vec::new();
    let mut encoder = zstd::stream::Encoder::with_dictionary(&mut frame, level, dict)?;
    std::io::Write::write_all(&mut encoder, payload)?;
    encoder.finish()?;
    Ok(frame)
}

/// `zstd::stream::Decoder` made by `with_dictionary` and read by `read_to_end`:
/// where it succeeds, the content is a function of the arguments. Nothing is
/// claimed of when it succeeds: bytes that are no frames, another dictionary or
/// a want of memory make it fail.
#[verifier::external_body]
fn zstd_decompress(frames: &[u8], dict: &[u8]) -> (r: Result<Vec<u8>, std::io::Error>)
    ensures
        r matches Ok(content) ==> zstd_content(frames@, dict@) == Some(content@),
{
    let mut decoder = zstd::stream::Decoder::with_dictionary(frames, dict)?;
    let mut content: Vec<u8> = Vec::new();
    std::io::Read::read_to_end(&mut decoder, &mut content)?;
    Ok(content)
}

/// The lengths of samples, added up.
pub open spec fn sizes_total(sizes: Seq<usize>) -> int
    decreases sizes.len(),
{
    if sizes.len() == 0 {
        0
    } else {
        sizes_total(sizes.drop_last()) + sizes.last()
    }
}

/// `zstd::dict::from_continuous`: fails unless the sizes add up to the length of
/// the samples. Nothing else is claimed: what dictionary is trained also depends
/// on how much memory the allocator sets aside for it.
#[verifier::external_body]
fn zstd_train(samples: &[u8], sizes: &[usize], max_size: usize) -> (r: Result<
    Vec<u8>,
    std::io::Error,
>)
    requires
        max_size <= isize::MAX,
    ensures
        sizes_total(sizes@) != samples@.len() ==> r is Err,
{
    zstd::dict::from_continuous(samples, sizes, max_size)
}

/// Whether training on samples may yield the given dictionary or error.
pub closed spec fn may_train(
    samples: &[u8],
    sizes: &[usize],
    max_size: usize,
    r: Result<Vec<u8>, std::io::Error>,
) -> bool {
    call_ensures(zstd_train, (samples, sizes, max_size), r)
}

/// Whether compressing may yield the given frame or error.
pub closed spec fn may_compress(
    payload: &[u8],
    dict: &[u8],
    level: i32,
    r: Result<Vec<u8>, std::io::Error>,
) -> bool {
    call_ensures(zstd_compress, (payload, dict, level), r)
}

/// Whether decompressing may yield the given content or error.
pub closed spec fn may_decompress(
    frames: &[u8],
    dict: &[u8],
    r: Result<Vec<u8>, std::io::Error>,
) -> bool {
    call_ensures(zstd_decompress, (frames, dict), r)
}

/// Trains a dictionary on samples.
pub(crate) fn train_dictionary(samples: &[u8], sizes: &[usize], max_size: usize) -> (r: Result<
    Vec<u8>,
    std::io::Error,
>)
    requires
        max_size <= isize::MAX,
    ensures
        may_train(samples, sizes, max_size, r),
        sizes_total(sizes@) != samples@.len() ==> r is Err,
{
    zstd_train(samples, sizes, max_size)
}

/// Compresses a byte string with a dictionary.
pub fn compress_with_dict(data_payload: &[u8], dict: &[u8], level: &i32) -> (r: Result<
    Vec<u8>,
    ArchiveError,
>)
    ensures
        match r {
            Ok(frame) => frame@ == zstd_frame(data_payload@, dict@, *level) && zstd_content(
                frame@,
                dict@,
            ) == Some(data_payload@),
            Err(e) => e matches ArchiveError::Io(cause) && may_compress(
                data_payload,
                dict,
                *level,
                Err(cause),
            ),
        },
{
    match zstd_compress(data_payload, dict, *level) {
        Ok(frame) => Ok(frame),
        Err(e) => Err(ArchiveError::Io(e)),
    }
}

/// Decompresses a chunk with the dictionary it was compressed with. What a chunk
/// was compressed from is what comes out, if anything does.
pub fn decompress_chunk(comp_chunk_data: &[u8], dictionary: &[u8]) -> (r: Result<
    Vec<u8>,
    SpriteShrinkError,
>)
    ensures
        match r {
            Ok(content) => zstd_content(comp_chunk_data@, dictionary@) == Some(content@),
            Err(e) => e matches SpriteShrinkError::Io(cause) && may_decompress(
                comp_chunk_data,
                dictionary,
                Err(cause),
            ),
        },
{
    match zstd_decompress(comp_chunk_data, dictionary) {
        Ok(content) => Ok(content),
        Err(e) => Err(SpriteShrinkError::Io(e)),
    }
}

// ---------------------------------------------------------------------------
// Putting compressed chunks in order
// ---------------------------------------------------------------------------

/// Number of bytes in the first `n` frames.
pub open spec fn frames_len(frames: Seq<Seq<u8>>, n: int) -> int
    decreases n,
{
    if n <= 0 {
        0
    } else {
        frames_len(frames, n - 1) + frames[n - 1].len()
    }
}

/// Where the given frames stand when they are written one after the other in
/// the given order. Lengths are kept in 32 bits.
pub open spec fn layout<H>(order: Seq<H>, frames: Seq<Seq<u8>>) -> Seq<(H, ChunkLocation)> {
    Seq::new(
        frames.len(),
        |i: int|
            (
                order[i],
                ChunkLocation {
                    offset: frames_len(frames, i) as u64,
                    compressed_length: frames[i].len() as u32,
                },
            ),
    )
}

proof fn lemma_frames_len_prefix(a: Seq<Seq<u8>>, b: Seq<Seq<u8>>, n: int)
    requires
        0 <= n <= a.len(),
        n <= b.len(),
        forall|i: int| 0 <= i < n ==> a[i] == b[i],
    ensures
        frames_len(a, n) == frames_len(b, n),
    decreases n,
{
    if n > 0 {
        lemma_frames_len_prefix(a, b, n - 1);
    }
}

/// One frame more, and the layout grows by its place.
pub proof fn lemma_layout_push<H>(order: Seq<H>, frames: Seq<Seq<u8>>, frame: Seq<u8>)
    requires
        frames.len() < order.len(),
    ensures
        layout(order, frames.push(frame)) == layout(order, frames).push(
            (
                order[frames.len() as int],
                ChunkLocation {
                    offset: frames_len(frames, frames.len() as int) as u64,
                    compressed_length: frame.len() as u32,
                },
            ),
        ),
        frames_len(frames.push(frame), (frames.len() + 1) as int) == frames_len(
            frames,
            frames.len() as int,
        ) + frame.len(),
{
    let more = frames.push(frame);
    assert forall|i: int| 0 <= i <= frames.len() implies #[trigger] frames_len(more, i)
        == frames_len(frames, i) by {
        lemma_frames_len_prefix(more, frames, i);
    }
    assert(frames_len(more, frames.len() as int) == frames_len(frames, frames.len() as int));
    assert(more[frames.len() as int] == frame);
    assert(layout(order, more) =~= layout(order, frames).push(
        (
            order[frames.len() as int],
            ChunkLocation {
                offset: frames_len(frames, frames.len() as int) as u64,
                compressed_length: frame.len() as u32,
            },
        ),
    ));
}

/// In a layout every frame starts where the one before it ends, the first one
/// at zero.
pub proof fn law_layout_is_contiguous<H>(order: Seq<H>, frames: Seq<Seq<u8>>, i: int)
    requires
        0 <= i < frames.len(),
        frames_len(frames, frames.len() as int) <= u64::MAX,
        frames[i].len() <= u32::MAX,
    ensures
        i == 0 ==> layout(order, frames)[0].1.offset == 0,
        i + 1 < frames.len() ==> layout(order, frames)[i + 1].1.offset == layout(
            order,
            frames,
        )[i].1.offset + layout(order, frames)[i].1.compressed_length,
{
    lemma_frames_len_grows(frames, i, frames.len() as int);
    lemma_frames_len_grows(frames, i + 1, frames.len() as int);
}

proof fn lemma_frames_len_grows(frames: Seq<Seq<u8>>, m: int, n: int)
    requires
        0 <= m <= n,
    ensures
        0 <= frames_len(frames, m) <= frames_len(frames, n),
    decreases n,
{
    if m < n {
        lemma_frames_len_grows(frames, m, n - 1);
    } else if m > 0 {
        lemma_frames_len_grows(frames, m - 1, n - 1);
    }
}

/// Holds back compressed chunks until it is their turn, and keeps the index of
/// those that were let through.
pub struct ChunkSequencer<H> {
    order: Vec<H>,
    waiting: HashMap<H, Vec<u8>>,
    index: Vec<(H, ChunkLocation)>,
    offset: u64,
}

impl<H: Hashable> ChunkSequencer<H> {
    /// The order in which chunks are let through.
    pub closed spec fn order(&self) -> Seq<H> {
        self.order@
    }

    /// The chunks that are held back.
    pub closed spec fn waiting(&self) -> Map<H, Vec<u8>> {
        self.waiting@
    }

    /// The places of the chunks that were let through.
    pub closed spec fn index(&self) -> Seq<(H, ChunkLocation)> {
        self.index@
    }

    /// Number of bytes that were let through.
    pub closed spec fn offset(&self) -> int {
        self.offset as int
    }

    /// No more chunks were let through than there are.
    pub closed spec fn wf(&self) -> bool {
        self.index@.len() <= self.order@.len()
    }

    /// A sequencer that has not seen a chunk.
    pub fn new(order: &[H]) -> (s: ChunkSequencer<H>)
        ensures
            s.wf(),
            s.order() == order@,
            s.waiting() == Map::<H, Vec<u8>>::empty(),
            s.index() == Seq::<(H, ChunkLocation)>::empty(),
            s.offset() == 0,
    {
        broadcast use vstd::std_specs::hash::group_hash_axioms;

        ChunkSequencer {
            order: vstd::slice::slice_to_vec(order),
            waiting: HashMap::new(),
            index: Vec::new(),
            offset: 0,
        }
    }

    /// Whether all chunks were let through.
    pub fn is_done(&self) -> (done: bool)
        requires
            self.wf(),
        ensures
            done == (self.index().len() == self.order().len()),
    {
        self.index.len() == self.order.len()
    }

    /// Takes a compressed chunk in, in place of an earlier one with that hash
    /// that is still held back.
    pub fn accept(&mut self, hash: H, frame: Vec<u8>)
        requires
            old(self).wf(),
        ensures
            final(self).wf(),
            final(self).order() == old(self).order(),
            final(self).waiting() == old(self).waiting().insert(hash, frame),
            final(self).index() == old(self).index(),
            final(self).offset() == old(self).offset(),
    {
        broadcast use vstd::std_specs::hash::group_hash_axioms;

        proof {
            H::lemma_key_model();
        }
        self.waiting.insert(hash, frame);
    }

    /// Lets the next chunk through, if it is there, and records its place. Fails
    /// where places outgrow 64 bits.
    pub fn next(&mut self) -> (r: Result<Option<Vec<u8>>, ArchiveError>)
        requires
            old(self).wf(),
        ensures
            final(self).wf(),
            final(self).order() == old(self).order(),
            ({
                let k = old(self).index().len() as int;
                let due = k < old(self).order().len() && old(self).waiting().contains_key(
                    old(self).order()[k],
                );
                match r {
                    Ok(Some(frame)) => {
                        &&& due
                        &&& frame == old(self).waiting()[old(self).order()[k]]
                        &&& final(self).waiting() == old(self).waiting().remove(
                            old(self).order()[k],
                        )
                        &&& final(self).offset() == old(self).offset() + frame@.len()
                        &&& final(self).index() == old(self).index().push(
                            (
                                old(self).order()[k],
                                ChunkLocation {
                                    offset: old(self).offset() as u64,
                                    compressed_length: frame@.len() as u32,
                                },
                            ),
                        )
                    },
                    Ok(None) => {
                        &&& !due
                        &&& final(self).waiting() == old(self).waiting()
                        &&& final(self).index() == old(self).index()
                        &&& final(self).offset() == old(self).offset()
                    },
                    Err(e) => {
                        &&& due
                        &&& e is CompressionError
                        &&& old(self).offset() + old(self).waiting()[old(self).order()[k]]@.len()
                            > u64::MAX
                    },
                }
            }),
    {
        broadcast use vstd::std_specs::hash::group_hash_axioms;

        proof {
            H::lemma_key_model();
        }
        if self.index.len() == self.order.len() {
            return Ok(None);
        }
        let hash = self.order[self.index.len()];
        match self.waiting.remove(&hash) {
            None => {
                assert(self.waiting@ =~= old(self).waiting@);
                Ok(None)
            },
            Some(frame) => {
                let size: u64 = frame.len() as u64;
                if size > u64::MAX - self.offset {
                    return Err(
                        ArchiveError::CompressionError(
                            "The compressed data is too large.".to_string(),
                        ),
                    );
                }
                self.index.push(
                    (
                        hash,
                        ChunkLocation {
                            offset: self.offset,
                            compressed_length: frame.len() as u32,
                        },
                    ),
                );
                self.offset = self.offset + size;
                Ok(Some(frame))
            },
        }
    }

    /// Hands out the index.
    pub fn finish(self) -> (index: Vec<(H, ChunkLocation)>)
        ensures
            index@ == self.index(),
    {
        self.index
    }
}

// ---------------------------------------------------------------------------
// Where chunks come from and where they go
// ---------------------------------------------------------------------------

/// Number of chunks asked for at a time when chunks are compressed.
pub const PREFETCH_COUNT: usize = 500;

/// Why a source did not hand out chunks.
#[derive(Debug)]
pub enum SourceError {
    Cancelled,
    Failed(String),
}

/// Where chunks are read from.
pub trait ChunkSource<H> {
    /// Whether the source can be read for the given hashes, some at a time.
    spec fn readable(&self, hashes: Seq<H>) -> bool;

    /// Whether a request may be answered with the given pairs of hash and data.
    spec fn delivers(&self, request: Seq<H>, pairs: Seq<(H, Seq<u8>)>) -> bool;

    /// Whether a request may be answered by the user's wish to stop.
    spec fn stops(&self, request: Seq<H>) -> bool;

    /// Whether a request may fail with the given text.
    spec fn fails(&self, request: Seq<H>, text: String) -> bool;

    /// Asks for the chunks with the hashes `from..to`, the next ones in turn.
    fn read(&self, hashes: &[H], from: usize, to: usize) -> (r: Result<
        Vec<(H, Vec<u8>)>,
        SourceError,
    >)
        requires
            self.readable(hashes@),
            from < to <= hashes@.len(),
            from % 500 == 0,
            hashes@.subrange(from as int, to as int) == fetch::batch(
                hashes@,
                500,
                (from / 500) as int,
            ),
        ensures
            match r {
                Ok(pairs) => self.delivers(
                    hashes@.subrange(from as int, to as int),
                    pair_views(pairs@),
                ),
                Err(SourceError::Cancelled) => self.stops(
                    hashes@.subrange(from as int, to as int),
                ),
                Err(SourceError::Failed(text)) => self.fails(
                    hashes@.subrange(from as int, to as int),
                    text,
                ),
            },
    ;
}

/// Where compressed chunks are written to.
pub trait ChunkSink: Sized {
    /// Whether the sink can be written to.
    spec fn writable(&self) -> bool;

    /// Whether writing the given frames may take the sink to a later state.
    spec fn after(&self, frames: Seq<Seq<u8>>, later: Self) -> bool;

    /// Whether writing a frame may fail with the given text.
    spec fn fails(&self, frame: Seq<u8>, text: String) -> bool;

    /// Writes a frame. The frames written since `start` are given along.
    fn write(&mut self, start: Ghost<Self>, written: Ghost<Seq<Seq<u8>>>, frame: &[u8]) -> (r:
        Result<(), String>)
        requires
            old(self).writable(),
            start@.after(written@, *old(self)),
        ensures
            final(self).writable(),
            match r {
                Ok(()) => start@.after(written@.push(frame@), *final(self)),
                Err(text) => old(self).fails(frame@, text),
            },
    ;
}

/// Pairs of hash and data, with the data taken as sequences.
pub open spec fn pair_views<H>(pairs: Seq<(H, Vec<u8>)>) -> Seq<(H, Seq<u8>)> {
    pairs.map_values(|p: (H, Vec<u8>)| (p.0, p.1@))
}

/// Whether a frame is what a chunk with the given hash was compressed to after
/// some request delivered that chunk, and decompresses to that chunk.
pub open spec fn frame_from<H, S: ChunkSource<H>>(
    source: &S,
    dict: Seq<u8>,
    level: i32,
    hashes: Seq<H>,
    hash: H,
    frame: Seq<u8>,
) -> bool {
    exists|i: int, pairs: Seq<(H, Seq<u8>)>, k: int|
        0 <= i && 500 * i < hashes.len() && source.delivers(
            #[trigger] fetch::batch(hashes, 500, i),
            pairs,
        ) && 0 <= k < pairs.len() && (#[trigger] pairs[k]).0 == hash && frame == zstd_frame(
            pairs[k].1,
            dict,
            level,
        ) && zstd_content(frame, dict) == Some(pairs[k].1)
}

/// Whether the frames are made of delivered chunks, those with the first hashes.
pub open spec fn first_frames<H, S: ChunkSource<H>>(
    source: &S,
    dict: Seq<u8>,
    level: i32,
    hashes: Seq<H>,
    frames: Seq<Seq<u8>>,
) -> bool {
    &&& frames.len() <= hashes.len()
    &&& forall|i: int|
        0 <= i < frames.len() ==> frame_from(
            source,
            dict,
            level,
            hashes,
            hashes[i],
            #[trigger] frames[i],
        )
}

/// Whether there is a frame for each hash, made of a delivered chunk.
pub open spec fn all_frames<H, S: ChunkSource<H>>(
    source: &S,
    dict: Seq<u8>,
    level: i32,
    hashes: Seq<H>,
    frames: Seq<Seq<u8>>,
) -> bool {
    frames.len() == hashes.len() && first_frames(source, dict, level, hashes, frames)
}

/// Whether the first requests were answered with the given deliveries.
pub open spec fn delivered<H, S: ChunkSource<H>>(
    source: &S,
    hashes: Seq<H>,
    deliveries: Seq<Seq<(H, Seq<u8>)>>,
) -> bool {
    forall|i: int|
        0 <= i < deliveries.len() ==> source.delivers(
            fetch::batch(hashes, 500, i),
            #[trigger] deliveries[i],
        )
}

/// Whether a hash is among the deliveries.
pub open spec fn is_among<H>(deliveries: Seq<Seq<(H, Seq<u8>)>>, hash: H) -> bool {
    exists|i: int, k: int|
        0 <= i < deliveries.len() && 0 <= k < deliveries[i].len() && (
        #[trigger] deliveries[i][k]).0 == hash
}

/// Whether a chunk was never delivered although all were asked for, or although
/// the source had nothing left.
pub open spec fn undelivered<H, S: ChunkSource<H>>(source: &S, hashes: Seq<H>) -> bool {
    exists|deliveries: Seq<Seq<(H, Seq<u8>)>>, k: int|
        #![trigger is_among(deliveries, hashes[k])]
        delivered(source, hashes, deliveries) && 0 <= k < hashes.len() && !is_among(
            deliveries,
            hashes[k],
        ) && (500 * deliveries.len() >= hashes.len() || (deliveries.len() > 0
            && deliveries.last().len() == 0))
}

/// What compressing chunks in order yields.
pub open spec fn compress_outcome<H, S: ChunkSource<H>, K: ChunkSink>(
    r: Result<Vec<(H, ChunkLocation)>, ArchiveError>,
    source: &S,
    before: K,
    later: K,
    dict: Seq<u8>,
    level: i32,
    hashes: Seq<H>,
) -> bool {
    match r {
        Ok(index) => compressed(index@, source, before, later, dict, level, hashes),
        Err(ArchiveError::Cancelled) => source_stopped(source, hashes),
        Err(ArchiveError::External(text)) => source_failed(source, hashes, text) || sink_failed(
            source,
            before,
            dict,
            level,
            hashes,
            text,
        ),
        Err(ArchiveError::WorkerError(text)) => text@
            == "Worker pool finished but not all chunks were processed."@ && (
        hashes.no_duplicates() ==> undelivered(source, hashes)),
        Err(ArchiveError::CompressionError(_)) => outgrown(source, dict, level, hashes),
        Err(ArchiveError::Io(e)) => compressor_failed(source, dict, level, hashes, e),
        _ => false,
    }
}

/// Whether the first requests may be answered and the next one end with the
/// user's wish to stop.
pub open spec fn source_stopped<H, S: ChunkSource<H>>(source: &S, hashes: Seq<H>) -> bool {
    exists|deliveries: Seq<Seq<(H, Seq<u8>)>>| #[trigger]
        delivered(source, hashes, deliveries) && 500 * deliveries.len() < hashes.len()
            && source.stops(fetch::batch(hashes, 500, deliveries.len() as int))
}

/// Whether compressing a delivered chunk may fail with the given error.
pub open spec fn compressor_failed<H, S: ChunkSource<H>>(
    source: &S,
    dict: Seq<u8>,
    level: i32,
    hashes: Seq<H>,
    e: std::io::Error,
) -> bool {
    exists|hash: H, payload: &[u8], d: &[u8]| #[trigger]
        chunk_delivered(source, hashes, hash, payload@) && d@ == dict && #[trigger] may_compress(
            payload,
            d,
            level,
            Err(e),
        )
}

/// Whether a request may have delivered a chunk with the given hash.
pub open spec fn chunk_delivered<H, S: ChunkSource<H>>(
    source: &S,
    hashes: Seq<H>,
    hash: H,
    chunk: Seq<u8>,
) -> bool {
    exists|i: int, pairs: Seq<(H, Seq<u8>)>, k: int|
        0 <= i && 500 * i < hashes.len() && source.delivers(
            #[trigger] fetch::batch(hashes, 500, i),
            pairs,
        ) && 0 <= k < pairs.len() && #[trigger] pairs[k] == (hash, chunk)
}

/// Whether an index gives the places of frames that were made of the delivered
/// chunks and written in order.
pub open spec fn compressed<H, S: ChunkSource<H>, K: ChunkSink>(
    index: Seq<(H, ChunkLocation)>,
    source: &S,
    before: K,
    later: K,
    dict: Seq<u8>,
    level: i32,
    hashes: Seq<H>,
) -> bool {
    exists|frames: Seq<Seq<u8>>| #[trigger]
        all_frames(source, dict, level, hashes, frames) && index == layout(hashes, frames)
            && frames_len(frames, frames.len() as int) <= u64::MAX && before.after(frames, later)
}

/// Whether the first requests may be answered and the next one fail with the
/// given text.
pub open spec fn source_failed<H, S: ChunkSource<H>>(
    source: &S,
    hashes: Seq<H>,
    text: String,
) -> bool {
    exists|deliveries: Seq<Seq<(H, Seq<u8>)>>| #[trigger]
        delivered(source, hashes, deliveries) && 500 * deliveries.len() < hashes.len()
            && source.fails(fetch::batch(hashes, 500, deliveries.len() as int), text)
}

/// Whether a sink that has taken the first frames may fail with the given text at
/// the next one.
pub open spec fn sink_failed<H, S: ChunkSource<H>, K: ChunkSink>(
    source: &S,
    before: K,
    dict: Seq<u8>,
    level: i32,
    hashes: Seq<H>,
    text: String,
) -> bool {
    exists|frames: Seq<Seq<u8>>, sink: K, frame: Seq<u8>| #[trigger]
        before.after(frames, sink) && #[trigger] sink.fails(frame, text) && first_frames(
            source,
            dict,
            level,
            hashes,
            frames.push(frame),
        )
}

/// Whether the first frames may be longer together than 64 bits can count.
pub open spec fn outgrown<H, S: ChunkSource<H>>(
    source: &S,
    dict: Seq<u8>,
    level: i32,
    hashes: Seq<H>,
) -> bool {
    exists|frames: Seq<Seq<u8>>| #[trigger]
        first_frames(source, dict, level, hashes, frames) && frames_len(
            frames,
            frames.len() as int,
        ) > u64::MAX
}

/// Whether the state of a compression run fits what was delivered and written
/// so far.
spec fn consistent<H: Hashable, S: ChunkSource<H>, K: ChunkSink>(
    sequencer: ChunkSequencer<H>,
    source: &S,
    dict: Seq<u8>,
    level: i32,
    hashes: Seq<H>,
    frames: Seq<Seq<u8>>,
    start: K,
    sink: K,
) -> bool {
    &&& sequencer.wf()
    &&& sequencer.order() == hashes
    &&& sequencer.index() == layout(hashes, frames)
    &&& sequencer.offset() == frames_len(frames, frames.len() as int)
    &&& first_frames(source, dict, level, hashes, frames)
    &&& forall|h: H| #[trigger]
        sequencer.waiting().contains_key(h) ==> frame_from(
            source,
            dict,
            level,
            hashes,
            h,
            sequencer.waiting()[h]@,
        )
    &&& start.after(frames, sink)
    &&& sink.writable()
}

/// Whether a hash is held back or was let through.
spec fn accounted<H: Hashable>(sequencer: ChunkSequencer<H>, h: H) -> bool {
    sequencer.waiting().contains_key(h) || exists|j: int|
        0 <= j < sequencer.index().len() && #[trigger] sequencer.order()[j] == h
}

/// Whether the next chunk has yet to come.
spec fn blocked<H: Hashable>(sequencer: ChunkSequencer<H>) -> bool {
    let k = sequencer.index().len() as int;
    k < sequencer.order().len() ==> !sequencer.waiting().contains_key(sequencer.order()[k])
}

/// A frame of the next chunk takes its place after the first frames.
proof fn lemma_one_frame_more<H, S: ChunkSource<H>>(
    source: &S,
    dict: Seq<u8>,
    level: i32,
    hashes: Seq<H>,
    frames: Seq<Seq<u8>>,
    frame: Seq<u8>,
)
    requires
        first_frames(source, dict, level, hashes, frames),
        frames.len() < hashes.len(),
        frame_from(source, dict, level, hashes, hashes[frames.len() as int], frame),
    ensures
        first_frames(source, dict, level, hashes, frames.push(frame)),
{
    let more = frames.push(frame);
    assert forall|i: int| 0 <= i < more.len() implies frame_from(
        source,
        dict,
        level,
        hashes,
        hashes[i],
        #[trigger] more[i],
    ) by {
        if i < frames.len() {
            assert(more[i] == frames[i]);
        }
    }
}

/// Writes all chunks whose turn has come.
fn let_through<H: Hashable, S: ChunkSource<H>, K: ChunkSink>(
    sequencer: &mut ChunkSequencer<H>,
    source: &S,
    sink: &mut K,
    dict: &[u8],
    level: i32,
    hashes: &[H],
    Ghost(start): Ghost<K>,
    Ghost(frames): Ghost<Seq<Seq<u8>>>,
) -> (r: Result<Ghost<Seq<Seq<u8>>>, ArchiveError>)
    requires
        consistent(*old(sequencer), source, dict@, level, hashes@, frames, start, *old(sink)),
    ensures
        match r {
            Ok(written) => {
                &&& consistent(
                    *final(sequencer),
                    source,
                    dict@,
                    level,
                    hashes@,
                    written@,
                    start,
                    *final(sink),
                )
                &&& blocked(*final(sequencer))
                &&& forall|h: H| #[trigger]
                    accounted(*old(sequencer), h) ==> accounted(*final(sequencer), h)
            },
            Err(ArchiveError::External(text)) => sink_failed(
                source,
                start,
                dict@,
                level,
                hashes@,
                text,
            ),
            Err(ArchiveError::CompressionError(_)) => outgrown(source, dict@, level, hashes@),
            _ => false,
        },
{
    let ghost mut written = frames;
    loop
        invariant
            consistent(*sequencer, source, dict@, level, hashes@, written, start, *sink),
            forall|h: H| #[trigger] accounted(*old(sequencer), h) ==> accounted(*sequencer, h),
        decreases hashes@.len() - written.len(),
    {
        let ghost before = *sequencer;
        let ghost k = written.len() as int;
        let next = match sequencer.next() {
            Ok(next) => next,
            Err(e) => {
                proof {
                    let frame = before.waiting()[before.order()[k]]@;
                    let more = written.push(frame);
                    lemma_layout_push(hashes@, written, frame);
                    assert(before.waiting().contains_key(hashes@[k]));
                    lemma_one_frame_more(source, dict@, level, hashes@, written, frame);
                    assert(frames_len(more, more.len() as int) > u64::MAX);
                    assert(outgrown(source, dict@, level, hashes@));
                }
                return Err(e);
            },
        };
        match next {
            Some(frame) => {
                proof {
                    assert(before.waiting().contains_key(hashes@[k]));
                    lemma_one_frame_more(source, dict@, level, hashes@, written, frame@);
                }
                let ghost old_sink = *sink;
                match sink.write(Ghost(start), Ghost(written), frame.as_slice()) {
                    Ok(()) => {},
                    Err(text) => {
                        proof {
                            assert(start.after(written, old_sink));
                            assert(old_sink.fails(frame@, text));
                            assert(sink_failed(source, start, dict@, level, hashes@, text));
                        }
                        return Err(ArchiveError::External(text));
                    },
                }
                proof {
                    lemma_layout_push(hashes@, written, frame@);
                    written = written.push(frame@);
                    assert forall|h: H| #[trigger] sequencer.waiting().contains_key(
                        h,
                    ) implies frame_from(
                        source,
                        dict@,
                        level,
                        hashes@,
                        h,
                        sequencer.waiting()[h]@,
                    ) by {
                        assert(before.waiting().contains_key(h));
                    }
                    assert forall|h: H| #[trigger] accounted(*old(sequencer), h) implies accounted(
                        *sequencer,
                        h,
                    ) by {
                        assert(accounted(before, h));
                        if before.waiting().contains_key(h) {
                            if h == before.order()[k] {
                                assert(sequencer.order()[k] == h);
                            } else {
                                assert(sequencer.waiting().contains_key(h));
                            }
                        } else {
                            let j = choose|j: int|
                                0 <= j < before.index().len() && #[trigger] before.order()[j] == h;
                            assert(sequencer.order()[j] == h);
                        }
                    }
                }
            },
            None => {
                return Ok(Ghost(written));
            },
        }
    }
}

/// Reads chunks, compresses them and writes them in the given order. Returns
/// where each of them stands.
pub fn run_compression<H: Hashable, S: ChunkSource<H>, K: ChunkSink>(
    dictionary: &[u8],
    sorted_hashes: &[H],
    compression_level: i32,
    source: &S,
    sink: &mut K,
) -> (r: Result<Vec<(H, ChunkLocation)>, ArchiveError>)
    requires
        source.readable(sorted_hashes@),
        old(sink).writable(),
        old(sink).after(Seq::<Seq<u8>>::empty(), *old(sink)),
    ensures
        compress_outcome(
            r,
            source,
            *old(sink),
            *final(sink),
            dictionary@,
            compression_level,
            sorted_hashes@,
        ),
{
    let ghost hashes = sorted_hashes@;
    let ghost start = *sink;
    let ghost mut frames: Seq<Seq<u8>> = Seq::empty();
    let ghost mut deliveries: Seq<Seq<(H, Seq<u8>)>> = Seq::empty();
    let mut sequencer = ChunkSequencer::new(sorted_hashes);
    let mut read_cursor: usize = 0;
    assert(layout(hashes, frames) =~= Seq::empty());
    while !sequencer.is_done()
        invariant
            hashes == sorted_hashes@,
            start == *old(sink),
            source.readable(hashes),
            read_cursor <= hashes.len(),
            read_cursor < hashes.len() ==> read_cursor == 500 * deliveries.len(),
            read_cursor == hashes.len() ==> 500 * deliveries.len() >= read_cursor,
            delivered(source, hashes, deliveries),
            sequencer.wf(),
            consistent(
                sequencer,
                source,
                dictionary@,
                compression_level,
                hashes,
                frames,
                start,
                *sink,
            ),
            deliveries.len() > 0 ==> blocked(sequencer),
            deliveries.len() == 0 ==> sequencer.waiting() == Map::<H, Vec<u8>>::empty(),
            forall|h: H| #[trigger] is_among(deliveries, h) ==> accounted(sequencer, h),
        decreases hashes.len() - read_cursor,
    {
        if read_cursor == sorted_hashes.len() {
            proof {
                lemma_undelivered(sequencer, source, hashes, deliveries);
            }
            return Err(
                ArchiveError::WorkerError(
                    "Worker pool finished but not all chunks were processed.".to_string(),
                ),
            );
        }
        let end: usize = if sorted_hashes.len() - read_cursor > PREFETCH_COUNT {
            read_cursor + PREFETCH_COUNT
        } else {
            sorted_hashes.len()
        };
        let ghost i = deliveries.len() as int;
        assert(hashes.subrange(read_cursor as int, end as int) == fetch::batch(hashes, 500, i));
        let pairs = match source.read(sorted_hashes, read_cursor, end) {
            Ok(pairs) => pairs,
            Err(SourceError::Cancelled) => {
                assert(source.stops(fetch::batch(hashes, 500, i)));
                assert(source_stopped(source, hashes));
                return Err(ArchiveError::Cancelled);
            },
            Err(SourceError::Failed(text)) => {
                assert(source.fails(fetch::batch(hashes, 500, i), text));
                assert(source_failed(source, hashes, text));
                return Err(ArchiveError::External(text));
            },
        };
        let ghost delivery = pair_views(pairs@);
        let ghost old_deliveries = deliveries;
        proof {
            deliveries = deliveries.push(delivery);
            assert forall|j: int| 0 <= j < deliveries.len() implies source.delivers(
                fetch::batch(hashes, 500, j),
                #[trigger] deliveries[j],
            ) by {
                if j < i {
                    assert(deliveries[j] == old_deliveries[j]);
                }
            }
        }
        if pairs.len() == 0 {
            proof {
                assert forall|h: H| #[trigger] is_among(deliveries, h) implies accounted(
                    sequencer,
                    h,
                ) by {
                    let (a, b) = choose|a: int, b: int|
                        0 <= a < deliveries.len() && 0 <= b < deliveries[a].len() && (
                        #[trigger] deliveries[a][b]).0 == h;
                    assert(old_deliveries[a][b].0 == h);
                    assert(is_among(old_deliveries, h));
                }
                lemma_undelivered(sequencer, source, hashes, deliveries);
            }
            return Err(
                ArchiveError::WorkerError(
                    "Worker pool finished but not all chunks were processed.".to_string(),
                ),
            );
        }
        let mut k: usize = 0;
        while k < pairs.len()
            invariant
                hashes == sorted_hashes@,
                hashes.len() > 0,
                start == *old(sink),
                k <= pairs@.len(),
                delivery == pair_views(pairs@),
                0 <= i,
                500 * i < hashes.len(),
                source.delivers(fetch::batch(hashes, 500, i), delivery),
                consistent(
                    sequencer,
                    source,
                    dictionary@,
                    compression_level,
                    hashes,
                    frames,
                    start,
                    *sink,
                ),
                k > 0 ==> blocked(sequencer),
                forall|h: H| #[trigger] is_among(old_deliveries, h) ==> accounted(sequencer, h),
                forall|b: int|
                    0 <= b < k ==> accounted(sequencer, (#[trigger] delivery[b]).0),
            decreases pairs@.len() - k,
        {
            let frame = match compress_with_dict(
                pairs[k].1.as_slice(),
                dictionary,
                &compression_level,
            ) {
                Ok(frame) => frame,
                Err(e) => {
                    proof {
                        let chunk = pairs@[k as int];
                        assert(delivery[k as int] == (chunk.0, chunk.1@));
                        assert(chunk_delivered(source, hashes, chunk.0, chunk.1@));
                    }
                    return Err(e);
                },
            };
            let hash = pairs[k].0;
            let ghost before = sequencer;
            assert(delivery[k as int] == (hash, pairs@[k as int].1@));
            assert(frame_from(source, dictionary@, compression_level, hashes, hash, frame@));
            sequencer.accept(hash, frame);
            proof {
                assert forall|h: H| #[trigger] sequencer.waiting().contains_key(
                    h,
                ) implies frame_from(
                    source,
                    dictionary@,
                    compression_level,
                    hashes,
                    h,
                    sequencer.waiting()[h]@,
                ) by {
                    if h != hash {
                        assert(before.waiting().contains_key(h));
                    }
                }
                assert forall|h: H| #[trigger] accounted(before, h) implies accounted(
                    sequencer,
                    h,
                ) by {
                    if !before.waiting().contains_key(h) {
                        let j = choose|j: int|
                            0 <= j < before.index().len() && #[trigger] before.order()[j] == h;
                        assert(sequencer.order()[j] == h);
                    }
                }
                assert(sequencer.waiting().contains_key(hash));
                assert(accounted(sequencer, hash));
            }
            let ghost middle = sequencer;
            match let_through(
                &mut sequencer,
                source,
                sink,
                dictionary,
                compression_level,
                sorted_hashes,
                Ghost(start),
                Ghost(frames),
            ) {
                Ok(written) => {
                    proof {
                        frames = written@;
                    }
                },
                Err(e) => return Err(e),
            }
            proof {
                assert forall|h: H| #[trigger] is_among(old_deliveries, h) implies accounted(
                    sequencer,
                    h,
                ) by {
                    assert(accounted(before, h));
                    assert(accounted(middle, h));
                }
                assert forall|b: int| 0 <= b < k + 1 implies accounted(
                    sequencer,
                    (#[trigger] delivery[b]).0,
                ) by {
                    if b < k {
                        assert(accounted(before, delivery[b].0));
                    }
                    assert(accounted(middle, delivery[b].0));
                }
            }
            k += 1;
        }
        proof {
            assert forall|h: H| #[trigger] is_among(deliveries, h) implies accounted(
                sequencer,
                h,
            ) by {
                let (a, b) = choose|a: int, b: int|
                    0 <= a < deliveries.len() && 0 <= b < deliveries[a].len() && (
                    #[trigger] deliveries[a][b]).0 == h;
                if a < i {
                    assert(old_deliveries[a][b].0 == h);
                    assert(is_among(old_deliveries, h));
                } else {
                    assert(delivery[b].0 == h);
                }
            }
        }
        read_cursor = end;
    }
    let index = sequencer.finish();
    assert(all_frames(source, dictionary@, compression_level, hashes, frames));
    Ok(index)
}

/// A chunk that is due but neither held back nor let through was not delivered.
proof fn lemma_undelivered<H: Hashable, S: ChunkSource<H>>(
    sequencer: ChunkSequencer<H>,
    source: &S,
    hashes: Seq<H>,
    deliveries: Seq<Seq<(H, Seq<u8>)>>,
)
    requires
        sequencer.order() == hashes,
        sequencer.index().len() < hashes.len(),
        blocked(sequencer),
        delivered(source, hashes, deliveries),
        forall|h: H| #[trigger] is_among(deliveries, h) ==> accounted(sequencer, h),
        500 * deliveries.len() >= hashes.len() || (deliveries.len() > 0 && deliveries.last().len()
            == 0),
    ensures
        hashes.no_duplicates() ==> undelivered(source, hashes),
{
    if hashes.no_duplicates() {
        let k = sequencer.index().len() as int;
        assert(!is_among(deliveries, hashes[k])) by {
            if is_among(deliveries, hashes[k]) {
                assert(accounted(sequencer, hashes[k]));
                let j = choose|j: int|
                    0 <= j < sequencer.index().len() && #[trigger] sequencer.order()[j]
                        == hashes[k];
                assert(hashes[j] == hashes[k]);
            }
        }
    }
}

/// Frames, end to end.
pub open spec fn frame_bytes(frames: Seq<Seq<u8>>, n: int) -> Seq<u8>
    decreases n,
{
    if n <= 0 {
        Seq::empty()
    } else {
        frame_bytes(frames, n - 1) + frames[n - 1]
    }
}

proof fn lemma_frame_bytes(frames: Seq<Seq<u8>>, i: int, n: int)
    requires
        0 <= i < n <= frames.len(),
    ensures
        frame_bytes(frames, n).len() == frames_len(frames, n),
        0 <= frames_len(frames, i),
        frames_len(frames, i) + frames[i].len() <= frames_len(frames, n),
        frame_bytes(frames, n).subrange(
            frames_len(frames, i),
            frames_len(frames, i) + frames[i].len(),
        ) == frames[i],
    decreases n,
{
    lemma_frame_bytes_len(frames, n);
    lemma_frame_bytes_len(frames, n - 1);
    lemma_frames_len_grows(frames, 0, i);
    let from = frames_len(frames, i);
    let to = from + frames[i].len();
    if i == n - 1 {
        assert(frame_bytes(frames, n).subrange(from, to) =~= frames[i]);
    } else {
        lemma_frame_bytes(frames, i, n - 1);
        assert(frame_bytes(frames, n).subrange(from, to) =~= frame_bytes(
            frames,
            n - 1,
        ).subrange(from, to));
    }
}

proof fn lemma_frame_bytes_len(frames: Seq<Seq<u8>>, n: int)
    ensures
        frame_bytes(frames, n).len() == frames_len(frames, n),
    decreases n,
{
    if n > 0 {
        lemma_frame_bytes_len(frames, n - 1);
    }
}

/// Chunks are found again: what stands at the place that the index gives for a
/// hash, among the frames written one after the other, decompresses to a chunk
/// that the source delivered for that hash. It takes places that fit into 64
/// bits and frames whose lengths fit into 32 bits.
pub proof fn law_chunks_are_found_again<H, S: ChunkSource<H>>(
    source: &S,
    dict: Seq<u8>,
    level: i32,
    hashes: Seq<H>,
    frames: Seq<Seq<u8>>,
    i: int,
)
    requires
        all_frames(source, dict, level, hashes, frames),
        0 <= i < frames.len(),
        frames_len(frames, frames.len() as int) <= u64::MAX,
        frames[i].len() <= u32::MAX,
    ensures
        layout(hashes, frames)[i].0 == hashes[i],
        ({
            let place = layout(hashes, frames)[i].1;
            let data = frame_bytes(frames, frames.len() as int);
            let frame = data.subrange(
                place.offset as int,
                place.offset + place.compressed_length,
            );
            &&& place.offset + place.compressed_length <= data.len()
            &&& zstd_content(frame, dict) is Some
            &&& chunk_delivered(source, hashes, hashes[i], zstd_content(frame, dict)->0)
        }),
{
    lemma_frame_bytes(frames, i, frames.len() as int);
    assert(frame_from(source, dict, level, hashes, hashes[i], frames[i]));
    let (b, pairs, k) = choose|b: int, pairs: Seq<(H, Seq<u8>)>, k: int|
        0 <= b && 500 * b < hashes.len() && source.delivers(#[trigger] fetch::batch(hashes, 500, b), pairs) && 0 <= k < pairs.len()
            && (#[trigger] pairs[k]).0 == hashes[i] && frames[i] == zstd_frame(
            pairs[k].1,
            dict,
            level,
        ) && zstd_content(frames[i], dict) == Some(pairs[k].1);
    assert(pairs[k] == (hashes[i], zstd_content(frames[i], dict)->0));
    assert(chunk_delivered(source, hashes, hashes[i], zstd_content(frames[i], dict)->0));
}

/// A callback that hands out pairs of hash and data.
pub struct PairSource<R> {
    pub read: R,
}

impl<H, E: IsCancelled + std::fmt::Display, R: Fn(&[H]) -> Result<Vec<(H, Vec<u8>)>, E>> ChunkSource<
    H,
> for PairSource<R> {
    open spec fn readable(&self, hashes: Seq<H>) -> bool {
        fetch::can_ask(&self.read)
    }

    open spec fn delivers(&self, request: Seq<H>, pairs: Seq<(H, Seq<u8>)>) -> bool {
        exists|reply: Vec<(H, Vec<u8>)>| #[trigger]
            fetch::answers(&self.read, request, reply) && pairs == pair_views(reply@)
    }

    open spec fn stops(&self, request: Seq<H>) -> bool {
        exists|e: E| #[trigger]
            fetch::refuses(&self.read, request, e) && fetch::stands_for_stop(e)
    }

    open spec fn fails(&self, request: Seq<H>, text: String) -> bool {
        exists|e: E| #[trigger]
            fetch::refuses(&self.read, request, e) && fetch::stands_for_failure(e, text)
    }

    fn read(&self, hashes: &[H], from: usize, to: usize) -> (r: Result<
        Vec<(H, Vec<u8>)>,
        SourceError,
    >) {
        match fetch::ask(&self.read, hashes, from, to) {
            Ok(pairs) => Ok(pairs),
            Err(e) => {
                if e.is_cancelled() {
                    Err(SourceError::Cancelled)
                } else {
                    Err(SourceError::Failed(e.to_string()))
                }
            },
        }
    }
}

/// A callback that hands out chunks in the order of the hashes asked for.
pub struct ListSource<'a, D> {
    pub get: &'a D,
}

/// The hashes asked for, each with the chunk at its place in the reply.
pub open spec fn paired<H>(request: Seq<H>, reply: Seq<Vec<u8>>) -> Seq<(H, Seq<u8>)> {
    Seq::new(reply.len(), |i: int| (request[i], reply[i]@))
}

/// Whether none of the requests for the given hashes is answered with more chunks
/// than were asked for.
pub open spec fn never_more<H, E, D: Fn(&[H]) -> Result<Vec<Vec<u8>>, E>>(
    get: &D,
    hashes: Seq<H>,
) -> bool {
    forall|i: int, reply: Vec<Vec<u8>>|
        0 <= i && 500 * i < hashes.len() && #[trigger] fetch::answers(
            get,
            fetch::batch(hashes, 500, i),
            reply,
        ) ==> reply@.len() <= fetch::batch(hashes, 500, i).len()
}

impl<'a, H: Copy, E: IsCancelled + std::fmt::Display, D: Fn(&[H]) -> Result<Vec<Vec<u8>>, E>> ChunkSource<
    H,
> for ListSource<'a, D> {
    open spec fn readable(&self, hashes: Seq<H>) -> bool {
        fetch::can_ask(self.get) && never_more(self.get, hashes)
    }

    open spec fn delivers(&self, request: Seq<H>, pairs: Seq<(H, Seq<u8>)>) -> bool {
        exists|reply: Vec<Vec<u8>>| #[trigger]
            fetch::answers(self.get, request, reply) && pairs == paired(request, reply@)
    }

    open spec fn stops(&self, request: Seq<H>) -> bool {
        exists|e: E| #[trigger]
            fetch::refuses(self.get, request, e) && fetch::stands_for_stop(e)
    }

    open spec fn fails(&self, request: Seq<H>, text: String) -> bool {
        exists|e: E| #[trigger]
            fetch::refuses(self.get, request, e) && fetch::stands_for_failure(e, text)
    }

    fn read(&self, hashes: &[H], from: usize, to: usize) -> (r: Result<
        Vec<(H, Vec<u8>)>,
        SourceError,
    >) {
        match fetch::ask(self.get, hashes, from, to) {
            Ok(reply) => {
                let ghost request = hashes@.subrange(from as int, to as int);
                assert(fetch::answers(
                    self.get,
                    fetch::batch(hashes@, 500, (from / 500) as int),
                    reply,
                ));
                let mut pairs: Vec<(H, Vec<u8>)> = Vec::with_capacity(reply.len());
                let mut i: usize = 0;
                while i < reply.len()
                    invariant
                        i <= reply@.len(),
                        from <= to <= hashes.len(),
                        request == hashes@.subrange(from as int, to as int),
                        reply@.len() <= request.len(),
                        pair_views(pairs@) =~= paired(request, reply@).take(i as int),
                    decreases reply@.len() - i,
                {
                    let ghost before = pair_views(pairs@);
                    let chunk = reply[i].clone();
                    assert(chunk@ =~= reply@[i as int]@);
                    pairs.push((hashes[from + i], chunk));
                    assert(pair_views(pairs@) =~= before.push((hashes@[from + i], chunk@)));
                    i += 1;
                }
                assert(pair_views(pairs@) =~= paired(request, reply@));
                Ok(pairs)
            },
            Err(e) => {
                if e.is_cancelled() {
                    Err(SourceError::Cancelled)
                } else {
                    Err(SourceError::Failed(e.to_string()))
                }
            },
        }
    }
}

/// A callback that writes frames.
pub struct WriteSink<W> {
    pub write: W,
}

/// Whether a callback may have written a frame.
pub open spec fn wrote<E, W: Fn(&[u8]) -> Result<(), E>>(write: W, frame: Seq<u8>) -> bool {
    exists|f: &[u8], r: Result<(), E>|
        f@ == frame && r is Ok && #[trigger] call_ensures(write, (f,), r)
}

/// Whether a callback may have failed to write a frame, with the given error.
pub open spec fn failed_to_write<E, W: Fn(&[u8]) -> Result<(), E>>(
    write: W,
    frame: Seq<u8>,
    e: E,
) -> bool {
    exists|f: &[u8]| f@ == frame && #[trigger] call_ensures(write, (f,), Err::<(), E>(e))
}

impl<E: std::fmt::Display, W: Fn(&[u8]) -> Result<(), E>> ChunkSink for WriteSink<W> {
    open spec fn writable(&self) -> bool {
        forall|f: &[u8]| call_requires(self.write, (f,))
    }

    open spec fn after(&self, frames: Seq<Seq<u8>>, later: Self) -> bool {
        later.write == self.write && forall|i: int|
            0 <= i < frames.len() ==> wrote(self.write, #[trigger] frames[i])
    }

    open spec fn fails(&self, frame: Seq<u8>, text: String) -> bool {
        exists|e: E| #[trigger]
            failed_to_write(self.write, frame, e) && fetch::has_text(e, text)
    }

    fn write(&mut self, start: Ghost<Self>, written: Ghost<Seq<Seq<u8>>>, frame: &[u8]) -> (r:
        Result<(), String>) {
        let outcome = (self.write)(frame);
        assert(call_ensures(self.write, (frame,), outcome));
        match outcome {
            Ok(()) => {
                proof {
                    assert(wrote(self.write, frame@));
                    let more = written@.push(frame@);
                    assert forall|i: int| 0 <= i < more.len() implies wrote(
                        start@.write,
                        #[trigger] more[i],
                    ) by {
                        if i < written@.len() {
                            assert(more[i] == written@[i]);
                        }
                    }
                }
                Ok(())
            },
            Err(e) => {
                assert(failed_to_write(self.write, frame@, e));
                Err(e.to_string())
            },
        }
    }
}

/// Whether a source never answers the requests for the given hashes with two
/// different chunks for one hash.
pub open spec fn answers_alike<H, S: ChunkSource<H>>(source: &S, hashes: Seq<H>) -> bool {
    forall|hash: H, a: Seq<u8>, b: Seq<u8>| #[trigger]
        chunk_delivered(source, hashes, hash, a) && #[trigger] chunk_delivered(
            source,
            hashes,
            hash,
            b,
        ) ==> a == b
}

/// With a source that answers alike, there is one frame for each hash.
pub proof fn law_frames_are_settled<H, S: ChunkSource<H>>(
    source: &S,
    dict: Seq<u8>,
    level: i32,
    hashes: Seq<H>,
    one: Seq<Seq<u8>>,
    other: Seq<Seq<u8>>,
)
    requires
        answers_alike(source, hashes),
        all_frames(source, dict, level, hashes, one),
        all_frames(source, dict, level, hashes, other),
    ensures
        one == other,
{
    assert forall|i: int| 0 <= i < hashes.len() implies one[i] == other[i] by {
        let a = lemma_chunk_of_frame(source, dict, level, hashes, hashes[i], one[i]);
        let b = lemma_chunk_of_frame(source, dict, level, hashes, hashes[i], other[i]);
        assert(a == b);
    }
    assert(one =~= other);
}

/// A frame is that of a chunk which was delivered.
proof fn lemma_chunk_of_frame<H, S: ChunkSource<H>>(
    source: &S,
    dict: Seq<u8>,
    level: i32,
    hashes: Seq<H>,
    hash: H,
    frame: Seq<u8>,
) -> (chunk: Seq<u8>)
    requires
        frame_from(source, dict, level, hashes, hash, frame),
    ensures
        chunk_delivered(source, hashes, hash, chunk),
        frame == zstd_frame(chunk, dict, level),
{
    let (i, pairs, k) = choose|i: int, pairs: Seq<(H, Seq<u8>)>, k: int|
        0 <= i && 500 * i < hashes.len() && source.delivers(
            #[trigger] fetch::batch(hashes, 500, i),
            pairs,
        ) && 0 <= k < pairs.len() && (#[trigger] pairs[k]).0 == hash && frame == zstd_frame(
            pairs[k].1,
            dict,
            level,
        ) && zstd_content(frame, dict) == Some(pairs[k].1);
    assert(pairs[k] == (hash, pairs[k].1));
    pairs[k].1
}

/// With a source that answers alike, two runs over the same hashes that both
/// succeed write the same frames in the same order and return the same index,
/// whatever they write to and however many workers they have.
pub proof fn law_runs_agree<H, S: ChunkSource<H>, K: ChunkSink, L: ChunkSink>(
    source: &S,
    dict: Seq<u8>,
    level: i32,
    hashes: Seq<H>,
    one: Result<Vec<(H, ChunkLocation)>, ArchiveError>,
    one_before: K,
    one_later: K,
    other: Result<Vec<(H, ChunkLocation)>, ArchiveError>,
    other_before: L,
    other_later: L,
)
    requires
        answers_alike(source, hashes),
        compress_outcome(one, source, one_before, one_later, dict, level, hashes),
        compress_outcome(other, source, other_before, other_later, dict, level, hashes),
        one is Ok,
        other is Ok,
    ensures
        one->Ok_0@ == other->Ok_0@,
        exists|frames: Seq<Seq<u8>>| #[trigger]
            all_frames(source, dict, level, hashes, frames) && one->Ok_0@ == layout(hashes, frames)
                && one_before.after(frames, one_later) && other_before.after(frames, other_later),
{
    let a = choose|frames: Seq<Seq<u8>>| #[trigger]
        all_frames(source, dict, level, hashes, frames) && one->Ok_0@ == layout(hashes, frames)
            && frames_len(frames, frames.len() as int) <= u64::MAX && one_before.after(
            frames,
            one_later,
        );
    let b = choose|frames: Seq<Seq<u8>>| #[trigger]
        all_frames(source, dict, level, hashes, frames) && other->Ok_0@ == layout(hashes, frames)
            && frames_len(frames, frames.len() as int) <= u64::MAX && other_before.after(
            frames,
            other_later,
        );
    law_frames_are_settled(source, dict, level, hashes, a, b);
}

/// Reads chunks through a callback, compresses them with a dictionary and writes
/// them through another callback in the order of `sorted_hashes`. Returns where
/// each chunk stands among what was written. The result does not depend on the
/// number of workers.
pub fn compress_chunks<ERead, EWrite, H, R, W>(
    _worker_count: usize,
    dictionary: &[u8],
    sorted_hashes: &[H],
    compression_level: i32,
    chunk_list_read_cb: R,
    chunk_write_cb: W,
) -> (r: Result<Vec<(H, ChunkLocation)>, ArchiveError>) where
    ERead: IsCancelled + std::fmt::Display,
    EWrite: std::fmt::Display,
    H: Hashable,
    R: Fn(&[H]) -> Result<Vec<(H, Vec<u8>)>, ERead>,
    W: Fn(&[u8]) -> Result<(), EWrite>,

    requires
        fetch::can_ask(&chunk_list_read_cb),
        forall|f: &[u8]| call_requires(chunk_write_cb, (f,)),
    ensures
        compress_outcome(
            r,
            &(PairSource { read: chunk_list_read_cb }),
            (WriteSink { write: chunk_write_cb }),
            (WriteSink { write: chunk_write_cb }),
            dictionary@,
            compression_level,
            sorted_hashes@,
        ),
{
    let source = PairSource { read: chunk_list_read_cb };
    let mut sink = WriteSink { write: chunk_write_cb };
    let ghost before = sink;
    let r = run_compression(dictionary, sorted_hashes, compression_level, &source, &mut sink);
    proof {
        if r is Ok {
            let frames = choose|frames: Seq<Seq<u8>>| #[trigger]
                all_frames(&source, dictionary@, compression_level, sorted_hashes@, frames)
                    && r->Ok_0@ == layout(sorted_hashes@, frames) && frames_len(
                    frames,
                    frames.len() as int,
                ) <= u64::MAX && before.after(frames, sink);
            assert(sink == before);
        }
    }
    r
}

/// Counts the bytes of frames in place of writing them.
pub struct CountSink {
    pub size: usize,
}

impl ChunkSink for CountSink {
    open spec fn writable(&self) -> bool {
        true
    }

    open spec fn after(&self, frames: Seq<Seq<u8>>, later: Self) -> bool {
        later.size == self.size + frames_len(frames, frames.len() as int)
    }

    open spec fn fails(&self, frame: Seq<u8>, text: String) -> bool {
        self.size + frame.len() > usize::MAX && text@ == "The compressed data is too large."@
    }

    fn write(&mut self, start: Ghost<Self>, written: Ghost<Seq<Seq<u8>>>, frame: &[u8]) -> (r:
        Result<(), String>) {
        if frame.len() > usize::MAX - self.size {
            return Err("The compressed data is too large.".to_string());
        }
        self.size = self.size + frame.len();
        proof {
            let more = written@.push(frame@);
            lemma_frames_len_prefix(more, written@, written@.len() as int);
            assert(more[written@.len() as int] == frame@);
        }
        Ok(())
    }
}

// ---------------------------------------------------------------------------
// Assembling an archive
// ---------------------------------------------------------------------------

/// Where progress is reported to.
pub trait ProgressReport {
    /// Whether progress can be reported.
    spec fn ready(&self) -> bool;

    /// Whether a step was reported.
    spec fn told(&self, progress: Progress) -> bool;

    /// Reports a step.
    fn report(&self, progress: Progress)
        requires
            self.ready(),
        ensures
            self.told(progress),
    ;
}

/// Reports nothing.
pub struct Silent;

impl ProgressReport for Silent {
    open spec fn ready(&self) -> bool {
        true
    }

    open spec fn told(&self, progress: Progress) -> bool {
        true
    }

    fn report(&self, progress: Progress) {
    }
}

/// Reports to a callback.
pub struct Callback<F> {
    pub callback: F,
}

impl<F: Fn(Progress)> ProgressReport for Callback<F> {
    open spec fn ready(&self) -> bool {
        forall|p: Progress| call_requires(self.callback, (p,))
    }

    open spec fn told(&self, progress: Progress) -> bool {
        call_ensures(self.callback, (progress,), ())
    }

    fn report(&self, progress: Progress) {
        (self.callback)(progress)
    }
}

/// A callback that writes frames and is told when the last one was written.
pub struct FlushSink<W, G> {
    pub write: W,
    pub progress: G,
}

/// Whether a callback of type `W` may have written a frame.
pub open spec fn passed_on<E, W: FnMut(&[u8], bool) -> Result<(), E>>(
    frame: Seq<u8>,
    last: bool,
) -> bool {
    exists|w: W, f: &[u8], r: Result<(), E>|
        f@ == frame && r is Ok && #[trigger] call_ensures(w, (f, last), r)
}

/// Whether a callback of type `W` may have failed to write a frame, with the
/// given error.
pub open spec fn turned_down<E, W: FnMut(&[u8], bool) -> Result<(), E>>(
    frame: Seq<u8>,
    last: bool,
    e: E,
) -> bool {
    exists|w: W, f: &[u8]|
        f@ == frame && #[trigger] call_ensures(w, (f, last), Err::<(), E>(e))
}

impl<
    E: std::fmt::Display,
    W: FnMut(&[u8], bool) -> Result<(), E>,
    G: ProgressReport,
> ChunkSink for FlushSink<W, G> {
    open spec fn writable(&self) -> bool {
        self.progress.ready() && forall|w: W, f: &[u8], last: bool| call_requires(w, (f, last))
    }

    open spec fn after(&self, frames: Seq<Seq<u8>>, later: Self) -> bool {
        &&& forall|i: int| 0 <= i < frames.len() ==> passed_on::<E, W>(#[trigger] frames[i], false)
        &&& later.progress == self.progress
        &&& frames.len() > 0 ==> self.progress.told(Progress::ChunkCompressed)
    }

    open spec fn fails(&self, frame: Seq<u8>, text: String) -> bool {
        exists|e: E| #[trigger] turned_down::<E, W>(frame, false, e) && fetch::has_text(e, text)
    }

    fn write(&mut self, start: Ghost<Self>, written: Ghost<Seq<Seq<u8>>>, frame: &[u8]) -> (r:
        Result<(), String>) {
        let outcome = (self.write)(frame, false);
        match outcome {
            Ok(()) => {
                self.progress.report(Progress::ChunkCompressed);
                proof {
                    assert(passed_on::<E, W>(frame@, false));
                    let more = written@.push(frame@);
                    assert forall|i: int| 0 <= i < more.len() implies passed_on::<E, W>(
                        #[trigger] more[i],
                        false,
                    ) by {
                        if i < written@.len() {
                            assert(more[i] == written@[i]);
                        }
                    }
                }
                Ok(())
            },
            Err(e) => {
                assert(turned_down::<E, W>(frame@, false, e));
                Err(e.to_string())
            },
        }
    }
}

/// Assembles the compressed part of an archive.
pub struct ArchiveBuilder<'a, E, H, R, W, G> {
    sorted_hashes: &'a [H],
    total_size: u64,
    get_chunk_data: R,
    write_comp_data: W,
    compression_level: i32,
    dictionary_size: u64,
    worker_threads: usize,
    opt_dict: bool,
    progress: G,
    error_type: PhantomData<E>,
}

/// What an archive is assembled from and how.
pub struct BuildPlan<H> {
    pub hashes: Seq<H>,
    pub total_size: u64,
    pub level: i32,
    pub dictionary_size: u64,
    pub threads: usize,
    pub optimize: bool,
}

impl<'a, E, H, R, W, G> ArchiveBuilder<'a, E, H, R, W, G> {
    /// The settings of the builder.
    pub closed spec fn plan(&self) -> BuildPlan<H> {
        BuildPlan {
            hashes: self.sorted_hashes@,
            total_size: self.total_size,
            level: self.compression_level,
            dictionary_size: self.dictionary_size,
            threads: self.worker_threads,
            optimize: self.opt_dict,
        }
    }

    /// The callback that hands out chunks.
    pub closed spec fn source(&self) -> R {
        self.get_chunk_data
    }

    /// The callback that writes compressed chunks.
    pub closed spec fn target(&self) -> W {
        self.write_comp_data
    }

    /// Where progress is reported to.
    pub closed spec fn reporter(&self) -> G {
        self.progress
    }

    /// Sets the compression level; 19 unless set.
    pub fn compression_level(&mut self, level: i32) -> (r: &mut Self)
        ensures
            r.plan() == (BuildPlan { level, ..old(self).plan() }),
            r.source() == old(self).source(),
            r.target() == old(self).target(),
            r.reporter() == old(self).reporter(),
            *final(self) == *final(r),
    {
        self.compression_level = level;
        self
    }

    /// Sets the size that the dictionary is to have at most; 16 kilobytes unless
    /// set.
    pub fn dictionary_size(&mut self, size: u64) -> (r: &mut Self)
        ensures
            r.plan() == (BuildPlan { dictionary_size: size, ..old(self).plan() }),
            r.source() == old(self).source(),
            r.target() == old(self).target(),
            r.reporter() == old(self).reporter(),
            *final(self) == *final(r),
    {
        self.dictionary_size = size;
        self
    }

    /// Sets the number of threads; left open unless set.
    pub fn worker_threads(&mut self, threads: usize) -> (r: &mut Self)
        ensures
            r.plan() == (BuildPlan { threads, ..old(self).plan() }),
            r.source() == old(self).source(),
            r.target() == old(self).target(),
            r.reporter() == old(self).reporter(),
            *final(self) == *final(r),
    {
        self.worker_threads = threads;
        self
    }

    /// Sets whether time is spent on a better dictionary; it is not unless set.
    pub fn optimize_dictionary(&mut self, optimize: bool) -> (r: &mut Self)
        ensures
            r.plan() == (BuildPlan { optimize, ..old(self).plan() }),
            r.source() == old(self).source(),
            r.target() == old(self).target(),
            r.reporter() == old(self).reporter(),
            *final(self) == *final(r),
    {
        self.opt_dict = optimize;
        self
    }

    /// Sets a callback that progress is reported to.
    pub fn with_progress<F: Fn(Progress)>(self, callback: F) -> (r: ArchiveBuilder<
        'a,
        E,
        H,
        R,
        W,
        Callback<F>,
    >)
        ensures
            r.plan() == self.plan(),
            r.source() == self.source(),
            r.target() == self.target(),
            r.reporter() == (Callback { callback }),
    {
        ArchiveBuilder {
            sorted_hashes: self.sorted_hashes,
            total_size: self.total_size,
            get_chunk_data: self.get_chunk_data,
            write_comp_data: self.write_comp_data,
            compression_level: self.compression_level,
            dictionary_size: self.dictionary_size,
            worker_threads: self.worker_threads,
            opt_dict: self.opt_dict,
            progress: Callback { callback },
            error_type: PhantomData,
        }
    }
}

impl<'a, E, H, R, W> ArchiveBuilder<'a, E, H, R, W, Silent> {
    /// A builder with default settings for the given chunks.
    pub fn new(sorted_hashes: &'a [H], total_size: u64, get_chunk_data: R, write_comp_data: W) -> (b:
        Self)
        ensures
            b.plan() == (BuildPlan {
                hashes: sorted_hashes@,
                total_size,
                level: 19,
                dictionary_size: 16384,
                threads: 0,
                optimize: false,
            }),
            b.source() == get_chunk_data,
            b.target() == write_comp_data,
    {
        ArchiveBuilder {
            sorted_hashes,
            total_size,
            get_chunk_data,
            write_comp_data,
            compression_level: 19,
            dictionary_size: 16384,
            worker_threads: 0,
            opt_dict: false,
            progress: Silent,
            error_type: PhantomData,
        }
    }
}

/// Whether a dictionary is what the optimizer made of the samples.
pub open spec fn optimized<
    H,
    E,
    R: Fn(&[H]) -> Result<Vec<Vec<u8>>, E>,
    O: Fn(&[u8], &[usize], usize, usize, i32) -> Result<Vec<u8>, ProcessingError>,
>(
    r: Result<Vec<u8>, ProcessingError>,
    plan: BuildPlan<H>,
    get: &R,
    optimizer: &O,
) -> bool {
    exists|samples: &[u8], sizes: &[usize]|
        processing::samples_gathered(samples@, sizes@, plan.hashes, plan.total_size, get)
            && #[trigger] call_ensures(
            *optimizer,
            (samples, sizes, plan.dictionary_size as usize, plan.threads, plan.level),
            r,
        )
}

/// Whether a dictionary is made as the plan says.
pub open spec fn dictionary_made<
    H,
    E,
    R: Fn(&[H]) -> Result<Vec<Vec<u8>>, E>,
    O: Fn(&[u8], &[usize], usize, usize, i32) -> Result<Vec<u8>, ProcessingError>,
>(dictionary: Vec<u8>, plan: BuildPlan<H>, get: &R, optimizer: &O) -> bool {
    if plan.optimize {
        optimized(Ok(dictionary), plan, get, optimizer)
    } else {
        processing::trained(
            Ok(dictionary),
            plan.hashes,
            plan.total_size,
            plan.dictionary_size as usize,
            get,
        )
    }
}

/// Whether an encoded index gives the places of frames that were made of the
/// delivered chunks with the given dictionary and written in order, with a flush
/// at the end.
pub open spec fn index_encoded<
    E: IsCancelled + std::fmt::Display,
    H: ArchiveHash,
    R: Fn(&[H]) -> Result<Vec<Vec<u8>>, E>,
    W: FnMut(&[u8], bool) -> Result<(), E>,
>(encoded: Seq<u8>, dict: Seq<u8>, plan: BuildPlan<H>, get: &R) -> bool {
    &&& exists|frames: Seq<Seq<u8>>| #[trigger]
        all_frames(&(ListSource { get }), dict, plan.level, plan.hashes, frames) && encoded
            == H::index_bytes(layout(plan.hashes, frames)) && H::index_in(encoded) == Some(
            layout(plan.hashes, frames),
        ) && frames_len(frames, frames.len() as int) <= u64::MAX && forall|i: int|
            0 <= i < frames.len() ==> passed_on::<E, W>(#[trigger] frames[i], false)
    &&& passed_on::<E, W>(Seq::<u8>::empty(), true)
}

/// Whether compressing with the dictionary may end with the given error.
pub open spec fn build_compression_failed<
    E: IsCancelled + std::fmt::Display,
    H: ArchiveHash,
    R: Fn(&[H]) -> Result<Vec<Vec<u8>>, E>,
    W: FnMut(&[u8], bool) -> Result<(), E>,
    G: ProgressReport,
    O: Fn(&[u8], &[usize], usize, usize, i32) -> Result<Vec<u8>, ProcessingError>,
>(e: ArchiveError, plan: BuildPlan<H>, get: &R, optimizer: &O) -> bool {
    exists|dict: Vec<u8>, before: FlushSink<W, G>, later: FlushSink<W, G>| #[trigger]
        compress_outcome(
            Err(e),
            &(ListSource { get }),
            before,
            later,
            dict@,
            plan.level,
            plan.hashes,
        ) && dictionary_made(dict, plan, get, optimizer)
}

/// Whether the flush after all frames may end with the given error.
pub open spec fn flush_failed<
    E: IsCancelled + std::fmt::Display,
    H: ArchiveHash,
    R: Fn(&[H]) -> Result<Vec<Vec<u8>>, E>,
    W: FnMut(&[u8], bool) -> Result<(), E>,
    O: Fn(&[u8], &[usize], usize, usize, i32) -> Result<Vec<u8>, ProcessingError>,
>(e: ArchiveError, plan: BuildPlan<H>, get: &R, optimizer: &O) -> bool {
    &&& exists|dict: Vec<u8>, frames: Seq<Seq<u8>>| #[trigger]
        all_frames(&(ListSource { get }), dict@, plan.level, plan.hashes, frames)
            && dictionary_made(dict, plan, get, optimizer)
    &&& exists|cause: E| #[trigger]
        turned_down::<E, W>(Seq::<u8>::empty(), true, cause) && match e {
            ArchiveError::Cancelled => fetch::stands_for_stop(cause),
            ArchiveError::External(text) => fetch::stands_for_failure(cause, text),
            _ => false,
        }
}

/// Whether the steps up to the given result were reported.
pub open spec fn steps_told<H, G: ProgressReport>(
    r: Result<CompressionResult, SpriteShrinkError>,
    plan: BuildPlan<H>,
    reporter: &G,
) -> bool {
    &&& reporter.told(Progress::GeneratingDictionary)
    &&& r is Ok ==> {
        &&& reporter.told(Progress::DictionaryDone)
        &&& reporter.told(Progress::Compressing { total_chunks: plan.hashes.len() as u64 })
        &&& plan.hashes.len() > 0 ==> reporter.told(Progress::ChunkCompressed)
    }
}

/// What assembling an archive yields.
pub open spec fn build_outcome<
    E: IsCancelled + std::fmt::Display,
    H: ArchiveHash,
    R: Fn(&[H]) -> Result<Vec<Vec<u8>>, E>,
    W: FnMut(&[u8], bool) -> Result<(), E>,
    G: ProgressReport,
    O: Fn(&[u8], &[usize], usize, usize, i32) -> Result<Vec<u8>, ProcessingError>,
>(
    r: Result<CompressionResult, SpriteShrinkError>,
    plan: BuildPlan<H>,
    get: &R,
    optimizer: &O,
) -> bool {
    match r {
        Ok(result) => {
            &&& result.dictionary_size == result.dictionary@.len()
            &&& result.enc_chunk_index_size == result.enc_chunk_index@.len()
            &&& index_encoded::<E, H, R, W>(
                result.enc_chunk_index@,
                result.dictionary@,
                plan,
                get,
            )
            &&& dictionary_made(result.dictionary, plan, get, optimizer)
        },
        Err(SpriteShrinkError::Processing(e)) => processing::samples_outcome(
            Err(e),
            plan.hashes,
            plan.total_size,
            get,
        ) || (plan.optimize && optimized(Err(e), plan, get, optimizer)),
        Err(SpriteShrinkError::Archive(ArchiveError::ZstdError(text))) => !plan.optimize
            && processing::training_failed(
            text,
            plan.hashes,
            plan.total_size,
            plan.dictionary_size as usize,
            get,
        ),
        Err(SpriteShrinkError::Archive(e)) => build_compression_failed::<E, H, R, W, G, O>(
            e,
            plan,
            get,
            optimizer,
        ) || flush_failed::<E, H, R, W, O>(e, plan, get, optimizer),
        _ => false,
    }
}

impl<'a, E, H, R, W, G> ArchiveBuilder<'a, E, H, R, W, G> where
    E: IsCancelled + std::fmt::Display,
    H: ArchiveHash,
    R: Fn(&[H]) -> Result<Vec<Vec<u8>>, E>,
    W: FnMut(&[u8], bool) -> Result<(), E>,
    G: ProgressReport,
 {
    /// Trains a dictionary, compresses all chunks with it, writes them in order
    /// and encodes the index of where they stand. The optimizer makes the
    /// dictionary where time is to be spent on it.
    pub fn build<O: Fn(&[u8], &[usize], usize, usize, i32) -> Result<Vec<u8>, ProcessingError>>(
        self,
        optimizer: &O,
    ) -> (r: Result<CompressionResult, SpriteShrinkError>)
        requires
            fetch::can_ask(&self.source()),
            processing::samples_there(
                &self.source(),
                self.plan().hashes,
                self.plan().total_size,
            ),
            never_more(&self.source(), self.plan().hashes),
            self.reporter().ready(),
            self.plan().dictionary_size <= isize::MAX,
            forall|w: W, f: &[u8], last: bool| call_requires(w, (f, last)),
            forall|samples: &[u8], sizes: &[usize], size: usize, threads: usize, level: i32|
                call_requires(*optimizer, (samples, sizes, size, threads, level)),
        ensures
            build_outcome::<E, H, R, W, G, O>(r, self.plan(), &self.source(), optimizer),
            steps_told(r, self.plan(), &self.reporter()),
    {
        let get = self.get_chunk_data;
        let progress = self.progress;
        let ghost plan = self.plan();
        progress.report(Progress::GeneratingDictionary);
        let dictionary_size: usize = self.dictionary_size as usize;
        let (samples, sizes) = match build_train_samples(
            self.sorted_hashes,
            self.total_size,
            dictionary_size,
            &get,
        ) {
            Ok(gathered) => gathered,
            Err(e) => return Err(SpriteShrinkError::Processing(e)),
        };
        assert(processing::samples_gathered(
            samples@,
            sizes@,
            plan.hashes,
            plan.total_size,
            &get,
        ));
        let dictionary = if self.opt_dict {
            let outcome = optimizer(
                samples.as_slice(),
                sizes.as_slice(),
                dictionary_size,
                self.worker_threads,
                self.compression_level,
            );
            assert(optimized(outcome, plan, &get, optimizer));
            match outcome {
                Ok(dictionary) => dictionary,
                Err(e) => return Err(SpriteShrinkError::Processing(e)),
            }
        } else {
            let outcome = train_dictionary(
                samples.as_slice(),
                sizes.as_slice(),
                dictionary_size,
            );
            assert(processing::trained(
                outcome,
                plan.hashes,
                plan.total_size,
                dictionary_size,
                &get,
            ));
            match outcome {
                Ok(dictionary) => dictionary,
                Err(e) => {
                    let text = e.to_string();
                    assert(fetch::has_text(e, text));
                    assert(processing::training_failed(
                        text,
                        plan.hashes,
                        plan.total_size,
                        dictionary_size,
                        &get,
                    ));
                    return Err(SpriteShrinkError::Archive(ArchiveError::ZstdError(text)));
                },
            }
        };
        assert(dictionary_made(dictionary, plan, &get, optimizer));
        progress.report(Progress::DictionaryDone);
        progress.report(
            Progress::Compressing { total_chunks: self.sorted_hashes.len() as u64 },
        );
        let source = ListSource { get: &get };
        let mut sink = FlushSink { write: self.write_comp_data, progress };
        let ghost before = sink;
        let index = match run_compression(
            dictionary.as_slice(),
            self.sorted_hashes,
            self.compression_level,
            &source,
            &mut sink,
        ) {
            Ok(index) => index,
            Err(e) => {
                assert(compress_outcome(
                    Err(e),
                    &source,
                    before,
                    sink,
                    dictionary@,
                    plan.level,
                    plan.hashes,
                ));
                assert(build_compression_failed::<E, H, R, W, G, O>(e, plan, &get, optimizer));
                return Err(SpriteShrinkError::Archive(e));
            },
        };
        let ghost frames = choose|frames: Seq<Seq<u8>>| #[trigger]
            all_frames(&source, dictionary@, plan.level, plan.hashes, frames) && index@ == layout(
                plan.hashes,
                frames,
            ) && frames_len(frames, frames.len() as int) <= u64::MAX && before.after(frames, sink);
        assert(all_frames(&source, dictionary@, plan.level, plan.hashes, frames));
        let nothing: [u8; 0] = [];
        assert(nothing@ =~= Seq::<u8>::empty());
        let flushed = (sink.write)(nothing.as_slice(), true);
        match flushed {
            Ok(()) => {},
            Err(e) => {
                assert(turned_down::<E, W>(Seq::<u8>::empty(), true, e));
                let failure = if e.is_cancelled() {
                    ArchiveError::Cancelled
                } else {
                    ArchiveError::External(e.to_string())
                };
                assert(flush_failed::<E, H, R, W, O>(failure, plan, &get, optimizer));
                return Err(SpriteShrinkError::Archive(failure));
            },
        }
        assert(passed_on::<E, W>(Seq::<u8>::empty(), true));
        let enc_chunk_index = H::encode_index(&index);
        proof {
            assert(enc_chunk_index@ == H::index_bytes(layout(plan.hashes, frames)));
            assert(index_encoded::<E, H, R, W>(enc_chunk_index@, dictionary@, plan, &get));
        }
        let dictionary_len: u64 = dictionary.len() as u64;
        let index_len: u64 = enc_chunk_index.len() as u64;
        Ok(
            CompressionResult {
                dictionary,
                dictionary_size: dictionary_len,
                enc_chunk_index,
                enc_chunk_index_size: index_len,
            },
        )
    }
}

/// A callback that answers with a list hands out each chunk for the hash at its
/// place in the request.
pub proof fn law_replies_go_by_place<
    'a,
    H: Copy,
    E: IsCancelled + std::fmt::Display,
    D: Fn(&[H]) -> Result<Vec<Vec<u8>>, E>,
>(source: ListSource<'a, D>, request: Seq<H>, pairs: Seq<(H, Seq<u8>)>)
    requires
        source.delivers(request, pairs),
    ensures
        exists|reply: Vec<Vec<u8>>| #[trigger]
            fetch::answers(source.get, request, reply) && pairs.len() == reply@.len() && forall|
                i: int,
            |
                0 <= i < pairs.len() ==> (#[trigger] pairs[i]).0 == request[i] && pairs[i].1
                    == reply@[i]@,
{
    let reply = choose|reply: Vec<Vec<u8>>| #[trigger]
        fetch::answers(source.get, request, reply) && pairs == paired(request, reply@);
    assert(forall|i: int|
        0 <= i < pairs.len() ==> (#[trigger] pairs[i]).0 == request[i] && pairs[i].1 == reply@[i]@);
}

/// Whether an archive's dictionary, level and index go with the frames that were
/// written: there is one frame for each hash, made of a chunk that was delivered for
/// it, written with the archive's dictionary at the level asked for, and the index
/// gives its hash and where it stands behind the frames before it.
pub open spec fn frames_match<H, S: ChunkSource<H>>(
    source: &S,
    hashes: Seq<H>,
    dict: Seq<u8>,
    level: i32,
    frames: Seq<Seq<u8>>,
    index: Seq<(H, ChunkLocation)>,
) -> bool {
    &&& frames.len() == hashes.len()
    &&& index.len() == hashes.len()
    &&& forall|i: int|
        0 <= i < hashes.len() ==> {
            &&& (#[trigger] index[i]).0 == hashes[i]
            &&& index[i].1.offset == frame_bytes(frames, i).len()
            &&& frames[i].len() <= u32::MAX ==> index[i].1.compressed_length == frames[i].len()
            &&& exists|chunk: Seq<u8>| #[trigger]
                chunk_delivered(source, hashes, hashes[i], chunk) && frames[i] == zstd_frame(
                    chunk,
                    dict,
                    level,
                )
        }
}

proof fn lemma_frames_match<H, S: ChunkSource<H>>(
    source: &S,
    hashes: Seq<H>,
    dict: Seq<u8>,
    level: i32,
    frames: Seq<Seq<u8>>,
)
    requires
        all_frames(source, dict, level, hashes, frames),
        frames_len(frames, frames.len() as int) <= u64::MAX,
    ensures
        frames_match(source, hashes, dict, level, frames, layout(hashes, frames)),
{
    let index = layout(hashes, frames);
    assert forall|i: int| 0 <= i < hashes.len() implies {
        &&& (#[trigger] index[i]).0 == hashes[i]
        &&& index[i].1.offset == frame_bytes(frames, i).len()
        &&& frames[i].len() <= u32::MAX ==> index[i].1.compressed_length == frames[i].len()
        &&& exists|chunk: Seq<u8>| #[trigger]
            chunk_delivered(source, hashes, hashes[i], chunk) && frames[i] == zstd_frame(
                chunk,
                dict,
                level,
            )
    } by {
        lemma_frames_len_grows(frames, i, frames.len() as int);
        if i > 0 {
            lemma_frame_bytes(frames, 0, i);
        }
        let chunk = lemma_chunk_of_frame(source, dict, level, hashes, hashes[i], frames[i]);
        assert(chunk_delivered(source, hashes, hashes[i], chunk));
    }
}

/// Compressing chunks hands out an index that goes with what was written, under the
/// dictionary and at the level that were given.
pub proof fn law_index_goes_with_the_frames<H, S: ChunkSource<H>, K: ChunkSink>(
    index: Vec<(H, ChunkLocation)>,
    source: &S,
    before: K,
    later: K,
    dict: Seq<u8>,
    level: i32,
    hashes: Seq<H>,
)
    requires
        compress_outcome(Ok(index), source, before, later, dict, level, hashes),
    ensures
        exists|frames: Seq<Seq<u8>>| #[trigger]
            before.after(frames, later) && frames_match(
                source,
                hashes,
                dict,
                level,
                frames,
                index@,
            ),
{
    let frames = choose|frames: Seq<Seq<u8>>| #[trigger]
        all_frames(source, dict, level, hashes, frames) && index@ == layout(hashes, frames)
            && frames_len(frames, frames.len() as int) <= u64::MAX && before.after(frames, later);
    lemma_frames_match(source, hashes, dict, level, frames);
}

/// A built archive can be read: its index decodes to entries that go with the frames
/// that were passed on, under the dictionary of the archive and at the level of the
/// plan, the sizes stated are those of dictionary and index, and the writer was
/// flushed.
pub proof fn law_built_archive_can_be_read<
    E: IsCancelled + std::fmt::Display,
    H: ArchiveHash,
    R: Fn(&[H]) -> Result<Vec<Vec<u8>>, E>,
    W: FnMut(&[u8], bool) -> Result<(), E>,
    G: ProgressReport,
    O: Fn(&[u8], &[usize], usize, usize, i32) -> Result<Vec<u8>, ProcessingError>,
>(result: CompressionResult, plan: BuildPlan<H>, get: &R, optimizer: &O)
    requires
        build_outcome::<E, H, R, W, G, O>(Ok(result), plan, get, optimizer),
    ensures
        result.dictionary_size == result.dictionary@.len(),
        result.enc_chunk_index_size == result.enc_chunk_index@.len(),
        H::index_in(result.enc_chunk_index@) is Some,
        exists|frames: Seq<Seq<u8>>| #[trigger]
            frames_match(
                &(ListSource { get }),
                plan.hashes,
                result.dictionary@,
                plan.level,
                frames,
                H::index_in(result.enc_chunk_index@)->0,
            ) && forall|i: int|
                0 <= i < frames.len() ==> passed_on::<E, W>(#[trigger] frames[i], false),
        passed_on::<E, W>(Seq::<u8>::empty(), true),
{
    let source = ListSource { get };
    let encoded = result.enc_chunk_index@;
    let frames = choose|frames: Seq<Seq<u8>>| #[trigger]
        all_frames(&source, result.dictionary@, plan.level, plan.hashes, frames) && encoded
            == H::index_bytes(layout(plan.hashes, frames)) && H::index_in(encoded) == Some(
            layout(plan.hashes, frames),
        ) && frames_len(frames, frames.len() as int) <= u64::MAX && forall|i: int|
            0 <= i < frames.len() ==> passed_on::<E, W>(#[trigger] frames[i], false);
    lemma_frames_match(&source, plan.hashes, result.dictionary@, plan.level, frames);
    assert(frames_match(
        &(ListSource { get }),
        plan.hashes,
        result.dictionary@,
        plan.level,
        frames,
        H::index_in(encoded)->0,
    ));
    assert forall|i: int| 0 <= i < frames.len() implies passed_on::<E, W>(
        #[trigger] frames[i],
        false,
    ) by {}
}

/// Counting what is written gives the number of bytes of all frames together.
pub proof fn law_counted_size_is_that_of_the_frames(
    before: CountSink,
    later: CountSink,
    frames: Seq<Seq<u8>>,
)
    requires
        before.after(frames, later),
    ensures
        later.size == before.size + frame_bytes(frames, frames.len() as int).len(),
{
    if frames.len() > 0 {
        lemma_frame_bytes(frames, 0, frames.len() as int);
    }
}

} // verus!
