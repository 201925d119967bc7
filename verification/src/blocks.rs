//! The blocks that the audio of a disc is stored in.

use vstd::prelude::*;
use crate::assembly;
use crate::disc;
use crate::disc::{ContentBlock, RleSectorMap, SectorType};
use crate::hashing::Hashable;

verus! {

/// Number of audio sectors in a block.
pub const AUDIO_SEGMENT_SIZE: u32 = 16;

/// A run of sectors that makes up a block.
#[derive(Clone, Copy, Debug, PartialEq, Eq, Structural)]
pub struct AudioSegment {
    pub start_sector: u32,
    pub sector_count: u32,
    pub sector_type: SectorType,
}

/// Number of sectors in the first `n` runs.
pub open spec fn sectors_before(runs: Seq<(u32, SectorType)>, n: int) -> int
    decreases n,
{
    if n <= 0 {
        0
    } else {
        sectors_before(runs, n - 1) + runs[n - 1].0
    }
}

/// The segments of a run that starts at sector `start`. Audio is cut into
/// segments of sixteen sectors, the last of which may be shorter; a gap of audio
/// is kept whole; other sectors have none.
pub open spec fn run_segments(start: int, run: (u32, SectorType)) -> Seq<AudioSegment> {
    match run.1 {
        SectorType::Audio => Seq::new(
            ((run.0 + 15) / 16) as nat,
            |k: int|
                AudioSegment {
                    start_sector: (start + 16 * k) as u32,
                    sector_count: if run.0 - 16 * k < 16 {
                        (run.0 - 16 * k) as u32
                    } else {
                        16
                    },
                    sector_type: run.1,
                },
        ),
        SectorType::PregapAudio => seq![
            AudioSegment { start_sector: start as u32, sector_count: run.0, sector_type: run.1 },
        ],
        _ => Seq::empty(),
    }
}

/// The segments of the first `n` runs.
pub open spec fn segments(runs: Seq<(u32, SectorType)>, n: int) -> Seq<AudioSegment>
    decreases n,
{
    if n <= 0 {
        Seq::empty()
    } else {
        segments(runs, n - 1) + run_segments(sectors_before(runs, n - 1), runs[n - 1])
    }
}

/// Whether the sectors of a disc can be numbered in 32 bits.
pub open spec fn countable(runs: Seq<(u32, SectorType)>) -> bool {
    sectors_before(runs, runs.len() as int) <= u32::MAX
}

/// Later runs start no earlier.
pub proof fn lemma_sectors_before_grow(runs: Seq<(u32, SectorType)>, m: int, n: int)
    requires
        0 <= m <= n <= runs.len(),
    ensures
        0 <= sectors_before(runs, m) <= sectors_before(runs, n),
    decreases n,
{
    if m < n {
        lemma_sectors_before_grow(runs, m, n - 1);
    } else if m > 0 {
        lemma_sectors_before_grow(runs, m - 1, n - 1);
    }
}

/// Whether the sectors of a disc can be numbered in 32 bits.
pub fn is_countable(rle_sector_map: &RleSectorMap) -> (b: bool)
    ensures
        b == countable(rle_sector_map.runs@),
{
    let ghost runs = rle_sector_map.runs@;
    let mut total: u32 = 0;
    let mut n: usize = 0;
    while n < rle_sector_map.runs.len()
        invariant
            runs == rle_sector_map.runs@,
            n <= runs.len(),
            total == sectors_before(runs, n as int),
        decreases runs.len() - n,
    {
        proof {
            lemma_sectors_before_grow(runs, n + 1, runs.len() as int);
        }
        total = match total.checked_add(rle_sector_map.runs[n].0) {
            Some(sum) => sum,
            None => return false,
        };
        n += 1;
    }
    true
}

/// Cuts a run of audio into segments.
fn push_audio(out: &mut Vec<AudioSegment>, start: u32, count: u32)
    requires
        start + count <= u32::MAX,
    ensures
        final(out)@ == old(out)@ + run_segments(start as int, (count, SectorType::Audio)),
{
    let ghost before = out@;
    let ghost all = run_segments(start as int, (count, SectorType::Audio));
    let ghost mut pieces: int = 0;
    let mut done: u32 = 0;
    assert(before + all.take(0) =~= before);
    while done < count
        invariant
            start + count <= u32::MAX,
            done <= count,
            all == run_segments(start as int, (count, SectorType::Audio)),
            0 <= pieces <= all.len(),
            done < count ==> done == 16 * pieces,
            done == count ==> pieces == all.len(),
            out@ == before + all.take(pieces),
        decreases count - done,
    {
        let size: u32 = if count - done < AUDIO_SEGMENT_SIZE {
            count - done
        } else {
            AUDIO_SEGMENT_SIZE
        };
        let piece = AudioSegment {
            start_sector: start + done,
            sector_count: size,
            sector_type: SectorType::Audio,
        };
        out.push(piece);
        proof {
            assert(all[pieces] == piece);
            assert(all.take(pieces + 1) =~= all.take(pieces).push(piece));
            assert(out@ =~= before + all.take(pieces + 1));
            pieces = pieces + 1;
        }
        done = done + size;
    }
    assert(all.take(all.len() as int) =~= all);
}

/// The segments of a disc.
pub fn audio_segments(rle_sector_map: &RleSectorMap) -> (out: Vec<AudioSegment>)
    requires
        countable(rle_sector_map.runs@),
    ensures
        out@ == segments(rle_sector_map.runs@, rle_sector_map.runs@.len() as int),
{
    let ghost runs = rle_sector_map.runs@;
    let mut out: Vec<AudioSegment> = Vec::new();
    let mut absolute_sector_offset: u32 = 0;
    let mut n: usize = 0;
    while n < rle_sector_map.runs.len()
        invariant
            runs == rle_sector_map.runs@,
            countable(runs),
            n <= runs.len(),
            absolute_sector_offset == sectors_before(runs, n as int),
            out@ == segments(runs, n as int),
        decreases runs.len() - n,
    {
        proof {
            lemma_sectors_before_grow(runs, n + 1, runs.len() as int);
        }
        let (run_count, sector_type) = rle_sector_map.runs[n];
        match sector_type {
            SectorType::Audio => push_audio(&mut out, absolute_sector_offset, run_count),
            SectorType::PregapAudio => {
                out.push(
                    AudioSegment {
                        start_sector: absolute_sector_offset,
                        sector_count: run_count,
                        sector_type,
                    },
                );
            },
            _ => {},
        }
        assert(out@ =~= segments(runs, n + 1));
        absolute_sector_offset = absolute_sector_offset + run_count;
        n += 1;
    }
    out
}

/// Whether a block records what a reader may have given for a segment.
pub open spec fn records<H: Hashable, R: Fn(u32, u32) -> Result<Vec<u8>, std::io::Error>>(
    read_region: &R,
    segment: AudioSegment,
    block: ContentBlock<H>,
) -> bool {
    &&& block.start_sector == segment.start_sector
    &&& block.sector_count == segment.sector_count
    &&& block.sector_type == segment.sector_type
    &&& exists|bytes: Vec<u8>| #[trigger]
        gives(read_region, segment, bytes) && block.content_hash == H::hash_of(bytes@)
}

/// Whether a reader may give the given bytes for a segment.
pub open spec fn gives<R: Fn(u32, u32) -> Result<Vec<u8>, std::io::Error>>(
    read_region: &R,
    segment: AudioSegment,
    bytes: Vec<u8>,
) -> bool {
    call_ensures(
        *read_region,
        (segment.start_sector, segment.sector_count),
        Ok::<Vec<u8>, std::io::Error>(bytes),
    )
}

/// Whether a reader may give something for a segment.
pub open spec fn readable<R: Fn(u32, u32) -> Result<Vec<u8>, std::io::Error>>(
    read_region: &R,
    segment: AudioSegment,
) -> bool {
    exists|bytes: Vec<u8>| #[trigger] gives(read_region, segment, bytes)
}

/// Whether a reader may have failed on one of the segments, after those before it.
pub open spec fn unreadable<R: Fn(u32, u32) -> Result<Vec<u8>, std::io::Error>>(
    read_region: &R,
    all: Seq<AudioSegment>,
    e: std::io::Error,
) -> bool {
    exists|k: int|
        0 <= k < all.len() && call_ensures(
            *read_region,
            ((#[trigger] all[k]).start_sector, all[k].sector_count),
            Err::<Vec<u8>, std::io::Error>(e),
        ) && forall|j: int| 0 <= j < k ==> readable(read_region, #[trigger] all[j])
}

/// Builds the block map of a disc: one block per segment, with the hash of the
/// bytes that `read_region` gives for its first sector and number of sectors.
pub fn build_block_map<H: Hashable, R: Fn(u32, u32) -> Result<Vec<u8>, std::io::Error>>(
    rle_sector_map: &RleSectorMap,
    read_region: &R,
) -> (r: Result<Vec<ContentBlock<H>>, std::io::Error>)
    requires
        countable(rle_sector_map.runs@),
        forall|start: u32, count: u32| call_requires(*read_region, (start, count)),
    ensures
        ({
            let all = segments(rle_sector_map.runs@, rle_sector_map.runs@.len() as int);
            match r {
                Ok(blocks) => {
                    &&& blocks@.len() == all.len()
                    &&& forall|k: int|
                        0 <= k < all.len() ==> records(read_region, all[k], #[trigger] blocks@[k])
                },
                Err(e) => unreadable(read_region, all, e),
            }
        }),
{
    let all = audio_segments(rle_sector_map);
    let mut blocks: Vec<ContentBlock<H>> = Vec::new();
    let mut n: usize = 0;
    while n < all.len()
        invariant
            n <= all@.len(),
            all@ == segments(rle_sector_map.runs@, rle_sector_map.runs@.len() as int),
            forall|start: u32, count: u32| call_requires(*read_region, (start, count)),
            blocks@.len() == n,
            forall|k: int|
                0 <= k < n ==> records(read_region, all@[k], #[trigger] blocks@[k]),
        decreases all@.len() - n,
    {
        let segment = all[n];
        let buffer = match read_region(segment.start_sector, segment.sector_count) {
            Ok(buffer) => buffer,
            Err(e) => {
                assert(all@[n as int] == segment);
                assert forall|j: int| 0 <= j < n implies readable(
                    read_region,
                    #[trigger] all@[j],
                ) by {
                    assert(records(read_region, all@[j], blocks@[j]));
                }
                assert(unreadable(read_region, all@, e));
                return Err(e);
            },
        };
        assert(gives(read_region, segment, buffer));
        let content_hash = H::from_bytes_with_seed(buffer.as_slice());
        let block = ContentBlock {
            start_sector: segment.start_sector,
            sector_count: segment.sector_count,
            content_hash,
            sector_type: segment.sector_type,
        };
        assert(records(read_region, segment, block));
        blocks.push(block);
        n += 1;
    }
    Ok(blocks)
}

// ---------------------------------------------------------------------------
// Blocks and the audio stream
// ---------------------------------------------------------------------------

/// The bytes of sectors `from..to`.
pub open spec fn region(sectors: Seq<[u8; 2352]>, from: int, to: int) -> Seq<u8>
    decreases to - from,
{
    if to <= from {
        Seq::empty()
    } else {
        region(sectors, from, to - 1) + sectors[to - 1]@
    }
}

/// The bytes of segments, end to end.
pub open spec fn segment_bytes(sectors: Seq<[u8; 2352]>, all: Seq<AudioSegment>) -> Seq<u8>
    decreases all.len(),
{
    if all.len() == 0 {
        Seq::empty()
    } else {
        segment_bytes(sectors, all.drop_last()) + region(
            sectors,
            all.last().start_sector as int,
            all.last().start_sector + all.last().sector_count,
        )
    }
}

proof fn lemma_region_joins(sectors: Seq<[u8; 2352]>, from: int, mid: int, to: int)
    requires
        from <= mid <= to,
    ensures
        region(sectors, from, mid) + region(sectors, mid, to) == region(sectors, from, to),
    decreases to - mid,
{
    if mid < to {
        lemma_region_joins(sectors, from, mid, to - 1);
    }
    assert(region(sectors, from, mid) + region(sectors, mid, to) =~= region(sectors, from, to));
}

proof fn lemma_segment_bytes_join(
    sectors: Seq<[u8; 2352]>,
    a: Seq<AudioSegment>,
    b: Seq<AudioSegment>,
)
    ensures
        segment_bytes(sectors, a + b) == segment_bytes(sectors, a) + segment_bytes(sectors, b),
    decreases b.len(),
{
    if b.len() == 0 {
        assert(a + b =~= a);
        assert(segment_bytes(sectors, a) + segment_bytes(sectors, b) =~= segment_bytes(sectors, a));
    } else {
        lemma_segment_bytes_join(sectors, a, b.drop_last());
        assert((a + b).drop_last() =~= a + b.drop_last());
        assert((a + b).last() == b.last());
        assert(segment_bytes(sectors, a + b) =~= segment_bytes(sectors, a) + segment_bytes(
            sectors,
            b,
        ));
    }
}

/// The first `k` segments of a run of audio hold its first sectors.
proof fn lemma_run_bytes(sectors: Seq<[u8; 2352]>, start: int, count: u32, k: int)
    requires
        0 <= start,
        start + count <= u32::MAX,
        0 <= k <= (count + 15) / 16,
    ensures
        segment_bytes(
            sectors,
            run_segments(start, (count, SectorType::Audio)).take(k),
        ) == region(
            sectors,
            start,
            if 16 * k < count {
                start + 16 * k
            } else {
                start + count
            },
        ),
    decreases k,
{
    let all = run_segments(start, (count, SectorType::Audio));
    if k > 0 {
        lemma_run_bytes(sectors, start, count, k - 1);
        assert(all.take(k).drop_last() =~= all.take(k - 1));
        assert(all.take(k).last() == all[k - 1]);
        let from = start + 16 * (k - 1);
        let to = if 16 * k < count {
            start + 16 * k
        } else {
            start + count
        };
        assert(all[k - 1].start_sector == from);
        assert(all[k - 1].start_sector + all[k - 1].sector_count == to);
        lemma_region_joins(sectors, start, from, to);
    }
}

/// A run of audio adds its sectors to the audio of a disc.
proof fn lemma_audio_run(types: Seq<SectorType>, sectors: Seq<[u8; 2352]>, from: int, to: int)
    requires
        0 <= from <= to,
        forall|i: int| from <= i < to ==> (#[trigger] types[i]).audio(),
    ensures
        assembly::audio_before(types, sectors, to) == assembly::audio_before(types, sectors, from)
            + region(sectors, from, to),
    decreases to - from,
{
    if from < to {
        lemma_audio_run(types, sectors, from, to - 1);
        assert(types[to - 1].audio());
    }
    assert(assembly::audio_before(types, sectors, to) =~= assembly::audio_before(
        types,
        sectors,
        from,
    ) + region(sectors, from, to));
}

/// Any other run adds nothing.
proof fn lemma_other_run(types: Seq<SectorType>, sectors: Seq<[u8; 2352]>, from: int, to: int)
    requires
        0 <= from <= to,
        forall|i: int| from <= i < to ==> !(#[trigger] types[i]).audio(),
    ensures
        assembly::audio_before(types, sectors, to) == assembly::audio_before(types, sectors, from),
    decreases to - from,
{
    if from < to {
        lemma_other_run(types, sectors, from, to - 1);
        assert(!types[to - 1].audio());
    }
}

/// The sectors of each run within the whole disc.
pub proof fn lemma_expanded_runs(runs: Seq<(u32, SectorType)>, n: int, i: int)
    requires
        0 <= n < runs.len(),
        sectors_before(runs, n) <= i < sectors_before(runs, n + 1),
    ensures
        disc::expanded(runs).len() == sectors_before(runs, runs.len() as int),
        0 <= i < disc::expanded(runs).len(),
        disc::expanded(runs)[i] == runs[n].1,
    decreases runs.len(),
{
    lemma_expanded_len(runs);
    lemma_expanded_len(runs.drop_last());
    lemma_sectors_before_grow(runs, 0, n);
    lemma_sectors_before_grow(runs, n + 1, runs.len() as int);
    lemma_same_counts(runs, runs.drop_last(), runs.len() - 1);
    if n < runs.len() - 1 {
        lemma_same_counts(runs, runs.drop_last(), n);
        lemma_same_counts(runs, runs.drop_last(), n + 1);
        lemma_expanded_runs(runs.drop_last(), n, i);
    }
}

proof fn lemma_same_counts(a: Seq<(u32, SectorType)>, b: Seq<(u32, SectorType)>, n: int)
    requires
        0 <= n <= a.len(),
        n <= b.len(),
        forall|i: int| 0 <= i < n ==> a[i] == b[i],
    ensures
        sectors_before(a, n) == sectors_before(b, n),
    decreases n,
{
    if n > 0 {
        lemma_same_counts(a, b, n - 1);
    }
}

/// A disc has as many sectors as its runs together.
pub proof fn lemma_expanded_len(runs: Seq<(u32, SectorType)>)
    ensures
        disc::expanded(runs).len() == sectors_before(runs, runs.len() as int),
    decreases runs.len(),
{
    if runs.len() > 0 {
        lemma_expanded_len(runs.drop_last());
        lemma_same_counts(runs, runs.drop_last(), runs.len() - 1);
    }
}

/// The run that a sector lies in.
pub proof fn lemma_run_of_sector(runs: Seq<(u32, SectorType)>, sector: int, n: int) -> (r: int)
    requires
        0 <= n <= runs.len(),
        0 <= sector < sectors_before(runs, n),
    ensures
        0 <= r < n,
        sectors_before(runs, r) <= sector < sectors_before(runs, r + 1),
        disc::expanded(runs)[sector] == runs[r].1,
    decreases n,
{
    if n > 0 && sector < sectors_before(runs, n - 1) {
        lemma_run_of_sector(runs, sector, n - 1)
    } else {
        lemma_expanded_runs(runs, n - 1, sector);
        n - 1
    }
}

/// The segments of a disc hold its audio: read one after the other, they are
/// the audio stream that the disc is assembled from. Runs of silent audio that
/// are kept out of the block map are excepted.
pub proof fn law_segments_hold_the_audio(
    runs: Seq<(u32, SectorType)>,
    sectors: Seq<[u8; 2352]>,
)
    requires
        countable(runs),
        sectors.len() == disc::expanded(runs).len(),
        forall|n: int| 0 <= n < runs.len() && (#[trigger] runs[n]).0 > 0 ==> runs[n].1 !is ZeroedAudio,
    ensures
        segment_bytes(sectors, segments(runs, runs.len() as int)) == assembly::audio_before(
            disc::expanded(runs),
            sectors,
            sectors.len() as int,
        ),
{
    lemma_expanded_len(runs);
    lemma_segments_hold(runs, sectors, runs.len() as int);
}

proof fn lemma_segments_hold(
    runs: Seq<(u32, SectorType)>,
    sectors: Seq<[u8; 2352]>,
    n: int,
)
    requires
        countable(runs),
        0 <= n <= runs.len(),
        sectors.len() == disc::expanded(runs).len(),
        forall|k: int| 0 <= k < runs.len() && (#[trigger] runs[k]).0 > 0 ==> runs[k].1 !is ZeroedAudio,
    ensures
        segment_bytes(sectors, segments(runs, n)) == assembly::audio_before(
            disc::expanded(runs),
            sectors,
            sectors_before(runs, n),
        ),
    decreases n,
{
    if n > 0 {
        let types = disc::expanded(runs);
        let run = runs[n - 1];
        let from = sectors_before(runs, n - 1);
        let to = sectors_before(runs, n);
        lemma_segments_hold(runs, sectors, n - 1);
        lemma_expanded_len(runs);
        lemma_sectors_before_grow(runs, 0, n - 1);
        lemma_sectors_before_grow(runs, n, runs.len() as int);
        assert forall|i: int| from <= i < to implies (#[trigger] types[i]) == run.1 by {
            lemma_expanded_runs(runs, n - 1, i);
        }
        let pieces = run_segments(from, run);
        lemma_segment_bytes_join(sectors, segments(runs, n - 1), pieces);
        match run.1 {
            SectorType::Audio => {
                lemma_audio_run(types, sectors, from, to);
                lemma_run_bytes(sectors, from, run.0, pieces.len() as int);
                assert(pieces.take(pieces.len() as int) =~= pieces);
            },
            SectorType::PregapAudio => {
                lemma_audio_run(types, sectors, from, to);
                assert(pieces.drop_last() =~= Seq::empty());
                assert(pieces.last().start_sector == from);
                assert(segment_bytes(sectors, pieces.drop_last()) =~= Seq::<u8>::empty());
                assert(segment_bytes(sectors, pieces) =~= region(sectors, from, to));
            },
            _ => {
                lemma_other_run(types, sectors, from, to);
                assert(segment_bytes(sectors, segments(runs, n - 1)) + segment_bytes(
                    sectors,
                    pieces,
                ) =~= segment_bytes(sectors, segments(runs, n - 1)));
            },
        }
    }
}

/// Whether a run ends at a sector.
pub open spec fn run_ends_at(runs: Seq<(u32, SectorType)>, sector: int) -> bool {
    exists|r: int| 0 < r <= runs.len() && #[trigger] sectors_before(runs, r) == sector
}

/// Every segment is a stretch of one kind of audio: it has sixteen sectors of
/// content, or fewer at the end of a run, or is a gap up to the end of its run, and
/// all of its sectors are of its type.
pub proof fn law_segments_are_of_one_kind(runs: Seq<(u32, SectorType)>, n: int, k: int)
    requires
        countable(runs),
        0 <= n <= runs.len(),
        0 <= k < segments(runs, n).len(),
    ensures
        ({
            let segment = segments(runs, n)[k];
            &&& segment.sector_type is Audio || segment.sector_type is PregapAudio
            &&& segment.sector_type is Audio ==> 1 <= segment.sector_count <= 16
            &&& segment.sector_type is PregapAudio || segment.sector_count < 16 ==> run_ends_at(
                runs,
                segment.start_sector + segment.sector_count,
            )
            &&& segment.start_sector + segment.sector_count <= disc::expanded(runs).len()
            &&& forall|i: int|
                segment.start_sector <= i < segment.start_sector + segment.sector_count
                    ==> #[trigger] disc::expanded(runs)[i] == segment.sector_type
        }),
    decreases n,
{
    if n > 0 {
        let front = segments(runs, n - 1);
        if k < front.len() {
            law_segments_are_of_one_kind(runs, n - 1, k);
        } else {
            let run = runs[n - 1];
            let from = sectors_before(runs, n - 1);
            let segment = segments(runs, n)[k];
            assert(segment == run_segments(from, run)[k - front.len()]);
            assert(sectors_before(runs, n) == from + run.0);
            lemma_expanded_len(runs);
            lemma_sectors_before_grow(runs, 0, n - 1);
            lemma_sectors_before_grow(runs, n, runs.len() as int);
            assert forall|i: int|
                segment.start_sector <= i < segment.start_sector
                    + segment.sector_count implies #[trigger] disc::expanded(runs)[i]
                == segment.sector_type by {
                lemma_expanded_runs(runs, n - 1, i);
            }
        }
    }
}

} // verus!
