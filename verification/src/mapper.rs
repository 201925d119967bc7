//! Mapping a disc: which sector holds what, and the run-length encoding of that
//! knowledge.

use vstd::prelude::*;
use crate::disc;
use crate::error::{AnalysisError, SpriteShrinkCDError};
use crate::disc::{
    CueFile, CueSheet, ExceptionType, MsfTime, RleSectorMap, SectorMap, SectorMapResult, SectorType,
    SubHeaderEntry, Track, TrackIndex, TrackType, TrackView,
};
use crate::reconstruction;
use crate::reconstruction::expand_sector_map;

verus! {

/// Why a disc could not be mapped.
#[derive(Debug)]
pub enum MapperError {
    MissingIndex01(u8),
    EmptyCueSheet,
    FileCountMismatch(usize, usize),
    ProviderIo(std::io::Error),
    Analysis(AnalysisError),
}

// ---------------------------------------------------------------------------
// Run-length encoding
// ---------------------------------------------------------------------------

/// Whether no run is empty and no two neighbouring runs could be one.
pub open spec fn canonical(runs: Seq<(u32, SectorType)>) -> bool {
    &&& forall|i: int| 0 <= i < runs.len() ==> (#[trigger] runs[i]).0 >= 1
    &&& forall|i: int, j: int|
        0 <= i && j == i + 1 && j < runs.len() ==> (#[trigger] runs[i]).1 != (#[trigger] runs[j]).1
}

/// Length of the run of equal sectors that ends with sector `i`.
pub open spec fn run_ending_at(sectors: Seq<SectorType>, i: int) -> int
    decreases i,
{
    if i <= 0 {
        1
    } else if sectors[i - 1] == sectors[i] {
        run_ending_at(sectors, i - 1) + 1
    } else {
        1
    }
}

/// Unfolds a run-length encoded map into one entry per sector.
pub fn rle_decode_map(rle_map: &RleSectorMap) -> (map: SectorMap)
    ensures
        map.sectors@ == disc::expanded(rle_map.runs@),
{
    SectorMap { sectors: expand_sector_map(rle_map) }
}

/// Folds a sector map into the shortest list of runs.
pub fn rle_encode_map(sector_map: &SectorMap) -> (rle_map: RleSectorMap)
    requires
        forall|i: int|
            0 <= i < sector_map.sectors@.len() ==> #[trigger] run_ending_at(
                sector_map.sectors@,
                i,
            ) <= u32::MAX,
    ensures
        disc::expanded(rle_map.runs@) == sector_map.sectors@,
        canonical(rle_map.runs@),
{
    let ghost all = sector_map.sectors@;
    let mut runs: Vec<(u32, SectorType)> = Vec::new();
    if sector_map.sectors.is_empty() {
        assert(disc::expanded(runs@) =~= all);
        return RleSectorMap { runs };
    }
    let mut current_type = sector_map.sectors[0];
    let mut current_count: u32 = 1;
    let mut i: usize = 1;
    assert(all.take(1) =~= disc::expanded(runs@) + Seq::new(1, |k: int| current_type));
    while i < sector_map.sectors.len()
        invariant
            all == sector_map.sectors@,
            1 <= i <= all.len(),
            forall|k: int| 0 <= k < all.len() ==> #[trigger] run_ending_at(all, k) <= u32::MAX,
            current_count == run_ending_at(all, i - 1),
            current_count >= 1,
            current_type == all[i - 1],
            canonical(runs@),
            runs@.len() > 0 ==> runs@.last().1 != current_type,
            all.take(i as int) == disc::expanded(runs@) + Seq::new(
                current_count as nat,
                |k: int| current_type,
            ),
        decreases all.len() - i,
    {
        let sector_type = sector_map.sectors[i];
        let ghost before = all.take(i as int);
        assert(all.take(i + 1) =~= before.push(sector_type));
        assert(run_ending_at(all, i as int) <= u32::MAX);
        if sector_type == current_type {
            current_count += 1;
            assert(all.take(i + 1) =~= disc::expanded(runs@) + Seq::new(
                current_count as nat,
                |k: int| current_type,
            ));
        } else {
            let ghost old_runs = runs@;
            runs.push((current_count, current_type));
            assert(runs@.drop_last() =~= old_runs);
            assert(disc::expanded(runs@) =~= before);
            current_type = sector_type;
            current_count = 1;
            assert(all.take(i + 1) =~= disc::expanded(runs@) + Seq::new(
                current_count as nat,
                |k: int| current_type,
            ));
        }
        i += 1;
    }
    let ghost old_runs = runs@;
    runs.push((current_count, current_type));
    assert(runs@.drop_last() =~= old_runs);
    assert(all.take(i as int) =~= all);
    RleSectorMap { runs }
}

/// Two canonical lists of runs with the same expansion are the same, so that
/// encoding undoes decoding on canonical lists.
pub proof fn law_encoding_undoes_decoding(a: Seq<(u32, SectorType)>, b: Seq<(u32, SectorType)>)
    requires
        canonical(a),
        canonical(b),
        disc::expanded(a) == disc::expanded(b),
    ensures
        a == b,
    decreases a.len(),
{
    if a.len() == 0 || b.len() == 0 {
        if a.len() > 0 {
            assert(disc::expanded(a).len() > 0);
        }
        if b.len() > 0 {
            assert(disc::expanded(b).len() > 0);
        }
        assert(a =~= b);
    } else {
        let all = disc::expanded(a);
        let n = all.len();
        assert(all[n - 1] == a.last().1);
        assert(all[n - 1] == b.last().1);
        lemma_last_run_no_longer(a, b);
        lemma_last_run_no_longer(b, a);
        let x = a.drop_last();
        let y = b.drop_last();
        let count = a.last().0;
        assert(disc::expanded(x) =~= all.take(n - count));
        assert(disc::expanded(y) =~= all.take(n - count));
        lemma_canonical_prefix(a);
        lemma_canonical_prefix(b);
        law_encoding_undoes_decoding(x, y);
        assert(a =~= x.push(a.last()));
        assert(b =~= y.push(b.last()));
    }
}

proof fn lemma_canonical_prefix(runs: Seq<(u32, SectorType)>)
    requires
        canonical(runs),
        runs.len() > 0,
    ensures
        canonical(runs.drop_last()),
{
    let x = runs.drop_last();
    assert forall|i: int, j: int| 0 <= i && j == i + 1 && j < x.len() implies (#[trigger] x[i]).1
        != (#[trigger] x[j]).1 by {
        assert(runs[i].1 != runs[j].1);
    }
}

proof fn lemma_last_run_no_longer(a: Seq<(u32, SectorType)>, b: Seq<(u32, SectorType)>)
    requires
        canonical(a),
        a.len() > 0,
        b.len() > 0,
        disc::expanded(a) == disc::expanded(b),
        a.last().1 == b.last().1,
    ensures
        b.last().0 <= a.last().0,
{
    let all = disc::expanded(a);
    let n = all.len();
    if b.last().0 > a.last().0 {
        let at = n - a.last().0 - 1;
        assert(all[at] == b.last().1) by {
            assert(disc::expanded(b)[at] == b.last().1);
        }
        let x = a.drop_last();
        if x.len() == 0 {
            assert(disc::expanded(x).len() == 0);
        } else {
            assert(a[a.len() - 2].1 != a[a.len() - 1].1);
            assert(x.last().0 >= 1);
            assert(disc::expanded(x)[at] == x.last().1);
        }
    }
}

// ---------------------------------------------------------------------------
// Tables of values that many sectors share
// ---------------------------------------------------------------------------

/// A table after a value has been entered: unchanged if the value was there.
pub open spec fn registered(table: Seq<Seq<u8>>, value: Seq<u8>) -> Seq<Seq<u8>> {
    if table.contains(value) {
        table
    } else {
        table.push(value)
    }
}

/// The distinct subheaders of a disc, numbered in order of first appearance.
#[derive(Debug)]
pub struct SubheaderRegistry {
    entries: Vec<[u8; 8]>,
}

impl View for SubheaderRegistry {
    type V = Seq<Seq<u8>>;

    closed spec fn view(&self) -> Seq<Seq<u8>> {
        self.entries@.map_values(|e: [u8; 8]| e@)
    }
}

impl SubheaderRegistry {
    /// No value stands in the table twice.
    pub closed spec fn wf(&self) -> bool {
        self@.no_duplicates()
    }

    /// An empty table.
    pub fn new() -> (table: SubheaderRegistry)
        ensures
            table.wf(),
            table@ == Seq::<Seq<u8>>::empty(),
    {
        let table = SubheaderRegistry { entries: Vec::new() };
        assert(table@ =~= Seq::<Seq<u8>>::empty());
        table
    }

    /// The distinct subheaders in the order of their numbers.
    pub fn entries(&self) -> (entries: &Vec<[u8; 8]>)
        ensures
            entries@.map_values(|e: [u8; 8]| e@) == self@,
    {
        &self.entries
    }

    /// The number of a subheader, entered now if it is new. Numbers are 16 bits
    /// wide and wrap around.
    pub fn get_or_register(&mut self, value: [u8; 8]) -> (id: u16)
        requires
            old(self).wf(),
        ensures
            final(self).wf(),
            final(self)@ == registered(old(self)@, value@),
            final(self)@.contains(value@),
            id == final(self)@.index_of(value@) % 65536,
    {
        let ghost before = self@;
        let mut i: usize = 0;
        while i < self.entries.len()
            invariant
                i <= self.entries@.len(),
                before == self@,
                self.wf(),
                *self == *old(self),
                forall|k: int| 0 <= k < i ==> #[trigger] self@[k] != value@,
            decreases self.entries@.len() - i,
        {
            if same_bytes(self.entries[i].as_slice(), value.as_slice()) {
                assert(self@[i as int] == value@);
                return (i % 65536) as u16;
            }
            assert(self@[i as int] == self.entries@[i as int]@);
            i += 1;
        }
        assert(!before.contains(value@));
        self.entries.push(value);
        assert(self@ =~= before.push(value@));
        assert(self@[i as int] == value@);
        (i % 65536) as u16
    }
}

/// The distinct byte strings kept for deviating sectors, numbered in order of
/// first appearance.
#[derive(Debug)]
pub struct ExceptionRegistry {
    entries: Vec<Vec<u8>>,
}

impl View for ExceptionRegistry {
    type V = Seq<Seq<u8>>;

    closed spec fn view(&self) -> Seq<Seq<u8>> {
        self.entries@.map_values(|e: Vec<u8>| e@)
    }
}

impl ExceptionRegistry {
    /// No value stands in the table twice.
    pub closed spec fn wf(&self) -> bool {
        self@.no_duplicates()
    }

    /// An empty table.
    pub fn new() -> (table: ExceptionRegistry)
        ensures
            table.wf(),
            table@ == Seq::<Seq<u8>>::empty(),
    {
        let table = ExceptionRegistry { entries: Vec::new() };
        assert(table@ =~= Seq::<Seq<u8>>::empty());
        table
    }

    /// The distinct byte strings in the order of their numbers.
    pub fn entries(&self) -> (entries: &Vec<Vec<u8>>)
        ensures
            entries@.map_values(|e: Vec<u8>| e@) == self@,
    {
        &self.entries
    }

    /// The number of a byte string, entered now if it is new. Numbers are 32
    /// bits wide and wrap around.
    pub fn get_or_register(&mut self, value: Vec<u8>) -> (id: u32)
        requires
            old(self).wf(),
        ensures
            final(self).wf(),
            final(self)@ == registered(old(self)@, value@),
            final(self)@.contains(value@),
            id == final(self)@.index_of(value@) % 4294967296,
    {
        let ghost before = self@;
        let mut i: usize = 0;
        while i < self.entries.len()
            invariant
                i <= self.entries@.len(),
                before == self@,
                self.wf(),
                *self == *old(self),
                forall|k: int| 0 <= k < i ==> #[trigger] self@[k] != value@,
            decreases self.entries@.len() - i,
        {
            if same_bytes(self.entries[i].as_slice(), value.as_slice()) {
                assert(self@[i as int] == value@);
                return (i as u64 % 4294967296) as u32;
            }
            assert(self@[i as int] == self.entries@[i as int]@);
            i += 1;
        }
        assert(!before.contains(value@));
        let ghost entered = value@;
        self.entries.push(value);
        assert(self@ =~= before.push(entered));
        assert(self@[i as int] == entered);
        (i as u64 % 4294967296) as u32
    }
}

/// Whether two byte strings are equal.
pub(crate) fn same_bytes(a: &[u8], b: &[u8]) -> (same: bool)
    ensures
        same == (a@ == b@),
{
    if a.len() != b.len() {
        return false;
    }
    let mut i: usize = 0;
    while i < a.len()
        invariant
            i <= a@.len(),
            a@.len() == b@.len(),
            forall|k: int| 0 <= k < i ==> a@[k] == b@[k],
        decreases a@.len() - i,
    {
        if a[i] != b[i] {
            return false;
        }
        i += 1;
    }
    assert(a@ =~= b@);
    true
}

// ---------------------------------------------------------------------------
// Tracks
// ---------------------------------------------------------------------------

/// The position, in frames, of the first index with the given number.
pub open spec fn index_frames(indices: Seq<TrackIndex>, number: u8) -> Option<int>
    decreases indices.len(),
{
    if indices.len() == 0 {
        None
    } else if indices[0].number == number {
        Some(indices[0].position.frames())
    } else {
        index_frames(indices.drop_first(), number)
    }
}

/// Where the content of a track starts: at its index 1.
pub open spec fn content_start(track: TrackView) -> Option<int> {
    index_frames(track.indices, 1)
}

/// Where a track starts: at its index 0 or, for want of one, at its index 1. A
/// track without index 1 has no start.
pub open spec fn track_start(track: TrackView) -> Option<int> {
    if content_start(track) is None {
        None
    } else if index_frames(track.indices, 0) is Some {
        index_frames(track.indices, 0)
    } else {
        content_start(track)
    }
}

fn find_index(indices: &Vec<TrackIndex>, number: u8) -> (frames: Option<u32>)
    ensures
        frames is Some <==> index_frames(indices@, number) is Some,
        frames matches Some(f) ==> index_frames(indices@, number) == Some(f as int),
{
    let mut i: usize = 0;
    assert(indices@.skip(0) =~= indices@);
    while i < indices.len()
        invariant
            i <= indices@.len(),
            index_frames(indices@, number) == index_frames(indices@.skip(i as int), number),
        decreases indices@.len() - i,
    {
        assert(indices@.skip(i as int).drop_first() =~= indices@.skip(i + 1));
        if indices[i].number == number {
            return Some(indices[i].position.to_total_frames());
        }
        i += 1;
    }
    None
}

/// The first frame of a track's content.
fn get_track_content_start(track: &Track) -> (r: Result<u32, MapperError>)
    ensures
        content_start(track@) is None ==> r == Err::<u32, MapperError>(
            MapperError::MissingIndex01(track.number),
        ),
        content_start(track@) matches Some(f) ==> (r matches Ok(g) && g == f),
{
    match find_index(&track.indices, 1) {
        Some(frames) => Ok(frames),
        None => Err(MapperError::MissingIndex01(track.number)),
    }
}

/// The first frame of a track, gap included.
fn get_track_start_sector(track: &Track) -> (r: Result<u32, MapperError>)
    ensures
        track_start(track@) is None ==> r == Err::<u32, MapperError>(
            MapperError::MissingIndex01(track.number),
        ),
        track_start(track@) matches Some(f) ==> (r matches Ok(g) && g == f),
{
    let index_01 = match find_index(&track.indices, 1) {
        Some(frames) => frames,
        None => return Err(MapperError::MissingIndex01(track.number)),
    };
    match find_index(&track.indices, 0) {
        Some(index_00) => Ok(index_00),
        None => Ok(index_01),
    }
}

/// Number of sectors in the first `n` files.
pub open spec fn sectors_before(counts: Seq<u32>, n: int) -> int
    decreases n,
{
    if n <= 0 {
        0
    } else {
        sectors_before(counts, n - 1) + counts[n - 1]
    }
}

/// Sectors before a file are no more than sectors before a later one.
pub proof fn lemma_sectors_before_monotonic(counts: Seq<u32>, m: int, n: int)
    requires
        0 <= m <= n <= counts.len(),
    ensures
        0 <= sectors_before(counts, m) <= sectors_before(counts, n),
    decreases n,
{
    if m < n {
        lemma_sectors_before_monotonic(counts, m, n - 1);
    } else if m > 0 {
        lemma_sectors_before_monotonic(counts, m - 1, n - 1);
    }
}

/// A track with all its positions moved back by a number of frames.
pub open spec fn shifted(track: TrackView, offset: int) -> TrackView {
    TrackView {
        number: track.number,
        track_type: track.track_type,
        indices: track.indices.map_values(
            |ix: TrackIndex|
                TrackIndex {
                    number: ix.number,
                    position: MsfTime::at(offset + ix.position.frames()),
                },
        ),
    }
}

/// The tracks of the first `n` files, with positions counted from the start of
/// the first file.
pub open spec fn normalized(files: Seq<CueFile>, counts: Seq<u32>, n: int) -> Seq<TrackView>
    decreases n,
{
    if n <= 0 {
        Seq::empty()
    } else {
        normalized(files, counts, n - 1) + disc::track_views(files[n - 1].tracks@).map_values(
            |t: TrackView| shifted(t, sectors_before(counts, n - 1)),
        )
    }
}

/// Whether every position of a sheet, counted from the start of the first
/// file, fits into a 32-bit number.
pub open spec fn positions_fit(files: Seq<CueFile>, counts: Seq<u32>) -> bool {
    &&& sectors_before(counts, counts.len() as int) <= u32::MAX
    &&& forall|f: int, t: int, x: int|
        0 <= f < files.len() && 0 <= t < files[f].tracks@.len() && 0 <= x
            < files[f].tracks@[t].indices@.len() ==> sectors_before(counts, f) + (
        #[trigger] files[f].tracks@[t].indices@[x]).position.frames() <= u32::MAX
}

/// A copy of a track with its positions moved back by `offset` frames.
fn shift_track(track: &Track, offset: u32) -> (moved: Track)
    requires
        forall|x: int|
            0 <= x < track.indices@.len() ==> offset + (
            #[trigger] track.indices@[x]).position.frames() <= u32::MAX,
    ensures
        moved@ == shifted(track@, offset as int),
{
    let mut indices: Vec<TrackIndex> = Vec::new();
    let mut x: usize = 0;
    while x < track.indices.len()
        invariant
            x <= track.indices@.len(),
            indices@ =~= shifted(track@, offset as int).indices.take(x as int),
            forall|x: int|
                0 <= x < track.indices@.len() ==> offset + (
                #[trigger] track.indices@[x]).position.frames() <= u32::MAX,
        decreases track.indices@.len() - x,
    {
        let index = track.indices[x];
        let absolute: u32 = offset + index.position.to_total_frames();
        indices.push(
            TrackIndex { number: index.number, position: MsfTime::from_total_frames(absolute) },
        );
        x += 1;
    }
    assert(indices@ =~= shifted(track@, offset as int).indices);
    Track { number: track.number, track_type: track.track_type, indices }
}

/// Merges the files of a sheet into one, with all positions counted from the
/// start of the first file.
pub fn normalize_cue_sheet(
    source_sheet: &CueSheet,
    file_sec_count: &[u32],
    new_bin_filename: &str,
) -> (r: Result<CueSheet, MapperError>)
    requires
        file_sec_count@.len() == source_sheet.files@.len() ==> positions_fit(
            source_sheet.files@,
            file_sec_count@,
        ),
    ensures
        file_sec_count@.len() != source_sheet.files@.len() ==> r == Err::<CueSheet, MapperError>(
            MapperError::FileCountMismatch(file_sec_count.len(), source_sheet.files.len()),
        ),
        file_sec_count@.len() == source_sheet.files@.len() ==> (r matches Ok(sheet)
            && sheet.source_filename@ == new_bin_filename@ && sheet.files@.len() == 1
            && sheet.files@[0].name@ == new_bin_filename@ && disc::track_views(
            sheet.files@[0].tracks@,
        ) == normalized(
            source_sheet.files@,
            file_sec_count@,
            source_sheet.files@.len() as int,
        )),
{
    if file_sec_count.len() != source_sheet.files.len() {
        return Err(
            MapperError::FileCountMismatch(file_sec_count.len(), source_sheet.files.len()),
        );
    }
    let ghost files = source_sheet.files@;
    let ghost counts = file_sec_count@;
    let mut tracks: Vec<Track> = Vec::new();
    let mut file_start_offset: u32 = 0;
    let mut f: usize = 0;
    assert(disc::track_views(tracks@) =~= Seq::empty());
    while f < source_sheet.files.len()
        invariant
            f <= files.len(),
            files == source_sheet.files@,
            counts == file_sec_count@,
            files.len() == counts.len(),
            positions_fit(files, counts),
            file_start_offset == sectors_before(counts, f as int),
            disc::track_views(tracks@) == normalized(files, counts, f as int),
        decreases files.len() - f,
    {
        let file = &source_sheet.files[f];
        let ghost moved = disc::track_views(file.tracks@).map_values(
            |t: TrackView| shifted(t, file_start_offset as int),
        );
        let mut t: usize = 0;
        assert(moved.take(0) =~= Seq::empty());
        while t < file.tracks.len()
            invariant
                t <= file.tracks@.len(),
                f < files.len(),
                *file == files[f as int],
                positions_fit(files, counts),
                file_start_offset == sectors_before(counts, f as int),
                moved == disc::track_views(file.tracks@).map_values(
                    |t: TrackView| shifted(t, file_start_offset as int),
                ),
                disc::track_views(tracks@) == normalized(files, counts, f as int) + moved.take(
                    t as int,
                ),
            decreases file.tracks@.len() - t,
        {
            let track = &file.tracks[t];
            assert forall|x: int| 0 <= x < track.indices@.len() implies file_start_offset + (
            #[trigger] track.indices@[x]).position.frames() <= u32::MAX by {
                assert(files[f as int].tracks@[t as int].indices@[x] == track.indices@[x]);
            }
            let new_track = shift_track(track, file_start_offset);
            let ghost before = disc::track_views(tracks@);
            tracks.push(new_track);
            proof {
                assert(disc::track_views(tracks@) =~= before.push(new_track@));
                assert(new_track@ == moved[t as int]);
                assert(moved.take(t + 1) =~= moved.take(t as int).push(moved[t as int]));
            }
            t += 1;
        }
        proof {
            assert(moved.take(t as int) =~= moved);
            lemma_sectors_before_monotonic(counts, f + 1, counts.len() as int);
        }
        file_start_offset = file_start_offset + file_sec_count[f];
        f += 1;
    }
    let merged = CueFile { name: new_bin_filename.to_string(), tracks };
    let mut merged_files: Vec<CueFile> = Vec::new();
    merged_files.push(merged);
    Ok(CueSheet { source_filename: new_bin_filename.to_string(), files: merged_files })
}

/// Merging files moves every position by the sectors of the files before it, as
/// long as the result is a position that a disc can have.
pub proof fn law_normalized_positions(track: TrackView, offset: int, x: int)
    requires
        0 <= x < track.indices.len(),
        0 <= offset,
        offset + track.indices[x].position.frames() < 256 * 4500,
    ensures
        shifted(track, offset).indices[x].number == track.indices[x].number,
        shifted(track, offset).indices[x].position.frames() == offset
            + track.indices[x].position.frames(),
{
    disc::law_frames_to_position_and_back(offset + track.indices[x].position.frames());
}

// ---------------------------------------------------------------------------
// Mapping
// ---------------------------------------------------------------------------

/// A source of raw sectors.
pub trait SectorDataProvider {
    /// Reads the sector with the given number.
    fn read_sector(&mut self, sector_index: u32) -> Result<[u8; 2352], std::io::Error>;
}

/// How a data sector was classified.
#[derive(Debug)]
pub struct SectorAnalysis {
    pub sector_type: SectorType,
    pub exception_data: Option<Vec<u8>>,
}

/// The type that a sector of a track's gap has before it is looked at.
pub open spec fn coarse_gap(track_type: TrackType) -> SectorType {
    match track_type {
        TrackType::Audio => SectorType::PregapAudio,
        TrackType::Mode1_2352 => SectorType::PregapMode1,
        TrackType::Mode2_2352 => SectorType::PregapMode2,
    }
}

/// The type that a sector of a track's content has before it is looked at.
pub open spec fn coarse_content(track_type: TrackType) -> SectorType {
    match track_type {
        TrackType::Audio => SectorType::Audio,
        TrackType::Mode1_2352 => SectorType::Mode1,
        TrackType::Mode2_2352 => SectorType::Mode2Form1,
    }
}

/// Where track `k` ends: at the start of the next track or at the end of the
/// disc.
pub open spec fn track_end(tracks: Seq<TrackView>, k: int, total: int) -> int {
    if k + 1 < tracks.len() {
        track_start(tracks[k + 1])->0
    } else {
        total
    }
}

/// The type of a sector according to the first `n` tracks. A later track
/// overrules an earlier one, and content overrules the gap before it.
pub open spec fn coarse_type(tracks: Seq<TrackView>, n: int, total: int, sector: int) -> SectorType
    decreases n,
{
    if n <= 0 {
        SectorType::Unmapped
    } else {
        let track = tracks[n - 1];
        if content_start(track)->0 <= sector < track_end(tracks, n - 1, total) {
            coarse_content(track.track_type)
        } else if track_start(track)->0 <= sector < content_start(track)->0 {
            coarse_gap(track.track_type)
        } else {
            coarse_type(tracks, n - 1, total, sector)
        }
    }
}

/// The types of all sectors according to a list of tracks.
pub open spec fn coarse_map(tracks: Seq<TrackView>, total: int) -> Seq<SectorType> {
    Seq::new(total as nat, |i: int| coarse_type(tracks, tracks.len() as int, total, i))
}

/// Whether track `k` is the first one without an index 1.
pub open spec fn first_without_index(tracks: Seq<TrackView>, k: int) -> bool {
    &&& 0 <= k < tracks.len()
    &&& content_start(tracks[k]) is None
    &&& forall|j: int| 0 <= j < k ==> content_start(#[trigger] tracks[j]) is Some
}

/// Whether every track has an index 1.
pub open spec fn all_indexed(tracks: Seq<TrackView>) -> bool {
    forall|j: int| 0 <= j < tracks.len() ==> content_start(#[trigger] tracks[j]) is Some
}

/// Sets a range of sectors to one type, as far as the range lies on the disc.
fn fill_range(sectors: &mut Vec<SectorType>, from: u32, to: u32, sector_type: SectorType)
    ensures
        final(sectors)@.len() == old(sectors)@.len(),
        forall|i: int|
            0 <= i < old(sectors)@.len() ==> #[trigger] final(sectors)@[i] == (if from <= i < to {
                sector_type
            } else {
                old(sectors)@[i]
            }),
{
    let mut i: u32 = from;
    while i < to
        invariant
            from <= i,
            from <= to ==> i <= to,
            from > to ==> i == from,
            sectors@.len() == old(sectors)@.len(),
            forall|k: int|
                0 <= k < sectors@.len() ==> #[trigger] sectors@[k] == (if from <= k < i {
                    sector_type
                } else {
                    old(sectors)@[k]
                }),
        decreases to - i,
    {
        if (i as usize) < sectors.len() {
            sectors[i as usize] = sector_type;
        }
        i += 1;
    }
}

/// Assigns a type to every sector from the track list alone.
fn assign_tracks(tracks: &Vec<Track>, total_sectors: u32) -> (r: Result<
    Vec<SectorType>,
    MapperError,
>)
    ensures
        all_indexed(disc::track_views(tracks@)) ==> (r matches Ok(sectors) && sectors@
            == coarse_map(disc::track_views(tracks@), total_sectors as int)),
        forall|k: int| #[trigger]
            first_without_index(disc::track_views(tracks@), k) ==> r == Err::<
                Vec<SectorType>,
                MapperError,
            >(MapperError::MissingIndex01(tracks@[k].number)),
{
    let ghost views = disc::track_views(tracks@);
    let total: usize = total_sectors as usize;
    let mut sectors: Vec<SectorType> = vec![SectorType::Unmapped; total];
    let mut n: usize = 0;
    while n < tracks.len()
        invariant
            n <= tracks@.len(),
            views == disc::track_views(tracks@),
            sectors@.len() == total_sectors,
            n > 0 ==> forall|j: int|
                0 <= j <= n && j < views.len() ==> content_start(#[trigger] views[j]) is Some,
            forall|i: int|
                0 <= i < total_sectors ==> #[trigger] sectors@[i] == coarse_type(
                    views,
                    n as int,
                    total_sectors as int,
                    i,
                ),
        decreases tracks@.len() - n,
    {
        let track = &tracks[n];
        assert(views[n as int] == track@);
        let start = match get_track_start_sector(track) {
            Ok(start) => start,
            Err(e) => {
                assert(first_without_index(views, n as int));
                assert forall|k: int| #[trigger] first_without_index(views, k) implies k == n by {
                    if k < n {
                        assert(content_start(views[k]) is Some);
                    }
                    if k > n {
                        assert(content_start(views[n as int]) is Some);
                    }
                }
                return Err(e);
            },
        };
        let content = match get_track_content_start(track) {
            Ok(content) => content,
            Err(e) => return Err(e),
        };
        let end = if n + 1 < tracks.len() {
            assert(views[n + 1] == tracks@[n + 1]@);
            match get_track_start_sector(&tracks[n + 1]) {
                Ok(end) => end,
                Err(e) => {
                    assert forall|k: int| #[trigger] first_without_index(views, k) implies k == n
                        + 1 by {
                        if k <= n {
                            assert(content_start(views[k]) is Some);
                        }
                        if k > n + 1 {
                            assert(content_start(views[n + 1]) is Some);
                        }
                    }
                    assert(content_start(views[n + 1]) is None);
                    return Err(e);
                },
            }
        } else {
            total_sectors
        };
        let gap_type = match track.track_type {
            TrackType::Audio => SectorType::PregapAudio,
            TrackType::Mode1_2352 => SectorType::PregapMode1,
            TrackType::Mode2_2352 => SectorType::PregapMode2,
        };
        fill_range(&mut sectors, start, content, gap_type);
        let content_type = match track.track_type {
            TrackType::Audio => SectorType::Audio,
            TrackType::Mode1_2352 => SectorType::Mode1,
            TrackType::Mode2_2352 => SectorType::Mode2Form1,
        };
        fill_range(&mut sectors, content, end, content_type);
        n += 1;
    }
    assert(sectors@ =~= coarse_map(views, total_sectors as int));
    assert(all_indexed(views));
    assert forall|k: int| #[trigger] first_without_index(views, k) implies false by {
        assert(content_start(views[k]) is Some);
    }
    Ok(sectors)
}

/// Whether a sector of this coarse type is to be looked at.
pub open spec fn is_data(coarse: SectorType) -> bool {
    coarse is Mode1 || coarse is Mode2Form1 || coarse is PregapMode1 || coarse is PregapMode2
}

/// The number that a binary coded decimal byte stands for.
pub open spec fn unbcd(coded: u8) -> int {
    (coded / 16) * 10 + coded % 16
}

/// Decodes a binary coded decimal byte.
pub fn from_bcd(coded: u8) -> (v: u8)
    ensures
        v == unbcd(coded),
{
    assert(coded >> 4 == coded / 16) by (bit_vector);
    assert(coded & 0x0F == coded % 16) by (bit_vector);
    let tens: u8 = (coded >> 4) * 10;
    let ones: u8 = coded & 0x0F;
    tens + ones
}

/// Every number of two decimal digits survives being coded.
pub proof fn law_bcd_round_trip(v: u8)
    requires
        v < 100,
    ensures
        unbcd(reconstruction::bcd(v)) == v,
{
}

/// The frame number that the header of a sector states.
pub open spec fn header_frames(data: Seq<u8>) -> int {
    unbcd(data[12]) * 4500 + unbcd(data[13]) * 75 + unbcd(data[14])
}

/// The bytes of a sector that are kept as its subheader: the subheader proper,
/// or the reserved bytes of a sector that has none.
pub open spec fn subheader_of(sector_type: SectorType, data: Seq<u8>) -> Seq<u8> {
    match sector_type {
        SectorType::Mode2Form1 | SectorType::Mode2Form2 | SectorType::Mode2Form1Exception
        | SectorType::Mode2Form2Exception | SectorType::PregapMode1Exception
        | SectorType::PregapMode2Exception => data.subrange(16, 24),
        _ => data.subrange(2068, 2076),
    }
}

/// Whether the deviating bytes of a sector of this type are kept.
pub open spec fn keeps_exception(sector_type: SectorType) -> bool {
    sector_type is Mode1Exception || sector_type is Mode2Form1Exception || sector_type
        is Mode2Form2Exception
}

/// What is known of a disc after some of its sectors have been looked at.
pub struct MapState {
    /// The types of all sectors.
    pub sectors: Seq<SectorType>,
    /// The finished runs of sectors with a common subheader.
    pub subheader_index: Seq<SubHeaderEntry>,
    /// The run that may still grow.
    pub open_run: Option<SubHeaderEntry>,
    /// Where the distance between header and position changes, and to what.
    pub lba_map: Seq<(u32, u32)>,
    /// The distance found last.
    pub offset: Option<u32>,
    /// The sectors whose deviating bytes are kept.
    pub exceptions: Seq<(u32, u32)>,
    /// The distinct subheaders.
    pub subheaders: Seq<Seq<u8>>,
    /// The distinct deviating byte strings.
    pub stored: Seq<Seq<u8>>,
}

/// The runs of subheaders after sector `i` was found to carry number `id`.
pub open spec fn run_step(
    index: Seq<SubHeaderEntry>,
    open_run: Option<SubHeaderEntry>,
    i: u32,
    id: u16,
) -> (Seq<SubHeaderEntry>, Option<SubHeaderEntry>) {
    let fresh = SubHeaderEntry { start_lba: i, count: 1, data_id: id };
    match open_run {
        None => (index, Some(fresh)),
        Some(run) => if run.data_id == id && i == run.start_lba + run.count {
            (
                index,
                Some(
                    SubHeaderEntry {
                        start_lba: run.start_lba,
                        count: (run.count + 1) as u32,
                        data_id: id,
                    },
                ),
            )
        } else {
            (index.push(run), Some(fresh))
        },
    }
}

/// The map of header distances after the header of sector `i` was read.
pub open spec fn offset_step(
    lba_map: Seq<(u32, u32)>,
    offset: Option<u32>,
    i: u32,
    frames: int,
) -> (Seq<(u32, u32)>, Option<u32>) {
    if frames >= i && offset != Some((frames - i) as u32) {
        (lba_map.push((i, (frames - i) as u32)), Some((frames - i) as u32))
    } else {
        (lba_map, offset)
    }
}

/// What is known after data sector `i` was read and classified.
pub open spec fn map_step(
    state: MapState,
    i: u32,
    data: Seq<u8>,
    sector_type: SectorType,
    exception: Option<Seq<u8>>,
) -> MapState {
    let (lba_map, offset) = offset_step(state.lba_map, state.offset, i, header_frames(data));
    let value = subheader_of(sector_type, data);
    let subheaders = registered(state.subheaders, value);
    let id = (subheaders.index_of(value) % 65536) as u16;
    let (subheader_index, open_run) = run_step(state.subheader_index, state.open_run, i, id);
    let keep = exception is Some && keeps_exception(sector_type);
    let stored = if keep {
        registered(state.stored, exception->0)
    } else {
        state.stored
    };
    let exceptions = if keep {
        state.exceptions.push((i, (stored.index_of(exception->0) % 4294967296) as u32))
    } else {
        state.exceptions
    };
    MapState {
        sectors: state.sectors.update(i as int, sector_type),
        subheader_index,
        open_run,
        lba_map,
        offset,
        exceptions,
        subheaders,
        stored,
    }
}

/// What the mapping has found out so far.
pub struct DiscMapper {
    sectors: Vec<SectorType>,
    subheader_index: Vec<SubHeaderEntry>,
    open_run: Option<SubHeaderEntry>,
    lba_map: Vec<(u32, u32)>,
    offset: Option<u32>,
    exceptions: Vec<(u32, u32)>,
}

/// The bytes behind an optional vector.
pub open spec fn vec_bytes(data: Option<Vec<u8>>) -> Option<Seq<u8>> {
    match data {
        Some(d) => Some(d@),
        None => None,
    }
}

/// The state before any sector has been looked at.
pub open spec fn start_state(
    sectors: Seq<SectorType>,
    subheaders: Seq<Seq<u8>>,
    stored: Seq<Seq<u8>>,
) -> MapState {
    MapState {
        sectors,
        subheader_index: Seq::empty(),
        open_run: None,
        lba_map: Seq::empty(),
        offset: None,
        exceptions: Seq::empty(),
        subheaders,
        stored,
    }
}

/// All runs of subheaders, the open one included.
pub open spec fn all_runs(state: MapState) -> Seq<SubHeaderEntry> {
    match state.open_run {
        None => state.subheader_index,
        Some(run) => state.subheader_index.push(run),
    }
}

/// The final type of a sector: what belongs to no track counts as silence
/// before a track.
pub open spec fn settled(sector_type: SectorType) -> SectorType {
    if sector_type is Unmapped {
        SectorType::PregapAudio
    } else {
        sector_type
    }
}

/// Whether a result holds what a state amounts to.
pub open spec fn is_result_of(result: SectorMapResult, state: MapState) -> bool {
    &&& result.sector_map.sectors@ == state.sectors.map_values(|t: SectorType| settled(t))
    &&& result.exception_index@ == state.exceptions
    &&& result.subheader_index@ == all_runs(state)
    &&& result.lba_map@ == state.lba_map
}

impl DiscMapper {
    /// All that is known, together with what the tables hold.
    pub closed spec fn state(
        &self,
        subheaders: Seq<Seq<u8>>,
        stored: Seq<Seq<u8>>,
    ) -> MapState {
        MapState {
            sectors: self.sectors@,
            subheader_index: self.subheader_index@,
            open_run: self.open_run,
            lba_map: self.lba_map@,
            offset: self.offset,
            exceptions: self.exceptions@,
            subheaders,
            stored,
        }
    }

    /// The types that the sectors have so far.
    pub closed spec fn types(&self) -> Seq<SectorType> {
        self.sectors@
    }

    /// The open run ends before sector `n`.
    pub closed spec fn wf(&self, n: int) -> bool {
        self.open_run matches Some(run) ==> run.start_lba + run.count <= n
    }

    /// A mapper for a disc whose sectors are provisionally of the given types.
    pub fn new(sectors: Vec<SectorType>) -> (mapper: DiscMapper)
        ensures
            mapper.wf(0),
            mapper.types() == sectors@,
            forall|subheaders: Seq<Seq<u8>>, stored: Seq<Seq<u8>>| #[trigger]
                mapper.state(subheaders, stored) == start_state(sectors@, subheaders, stored),
    {
        DiscMapper {
            sectors,
            subheader_index: Vec::new(),
            open_run: None,
            lba_map: Vec::new(),
            offset: None,
            exceptions: Vec::new(),
        }
    }

    /// The type that sector `i` has so far.
    pub fn sector_type(&self, i: u32) -> (sector_type: SectorType)
        requires
            i < self.types().len(),
        ensures
            sector_type == self.types()[i as int],
    {
        self.sectors[i as usize]
    }

    /// Takes in what was found out about data sector `i`.
    pub fn record(
        &mut self,
        i: u32,
        data: &[u8; 2352],
        analysis: SectorAnalysis,
        subheaders: &mut SubheaderRegistry,
        stored: &mut ExceptionRegistry,
    )
        requires
            old(self).wf(i as int),
            i < old(self).types().len(),
            i < u32::MAX,
            old(subheaders).wf(),
            old(stored).wf(),
        ensures
            final(self).wf(i + 1),
            final(subheaders).wf(),
            final(stored).wf(),
            final(self).types() == old(self).types().update(i as int, analysis.sector_type),
            final(self).state(final(subheaders)@, final(stored)@) == map_step(
                old(self).state(old(subheaders)@, old(stored)@),
                i,
                data@,
                analysis.sector_type,
                vec_bytes(analysis.exception_data),
            ),
    {
        let minute = from_bcd(data[12]);
        let second = from_bcd(data[13]);
        let frame = from_bcd(data[14]);
        let header_lba: u32 = minute as u32 * 60 * 75 + second as u32 * 75 + frame as u32;
        assert(header_lba == header_frames(data@));
        if header_lba >= i {
            let detected: u32 = header_lba - i;
            let changed = match self.offset {
                Some(current) => current != detected,
                None => true,
            };
            if changed {
                self.lba_map.push((i, detected));
                self.offset = Some(detected);
            }
        }
        let value = subheader_bytes(analysis.sector_type, data);
        self.sectors[i as usize] = analysis.sector_type;
        let id = subheaders.get_or_register(value);
        match self.open_run {
            Some(run) => {
                if run.data_id == id && i == run.start_lba + run.count {
                    self.open_run = Some(
                        SubHeaderEntry {
                            start_lba: run.start_lba,
                            count: run.count + 1,
                            data_id: id,
                        },
                    );
                } else {
                    self.subheader_index.push(run);
                    self.open_run = Some(SubHeaderEntry { start_lba: i, count: 1, data_id: id });
                }
            },
            None => {
                self.open_run = Some(SubHeaderEntry { start_lba: i, count: 1, data_id: id });
            },
        }
        if let Some(bytes) = analysis.exception_data {
            let kind = match analysis.sector_type {
                SectorType::Mode1Exception => ExceptionType::Mode1,
                SectorType::Mode2Form1Exception => ExceptionType::Mode2Form1,
                SectorType::Mode2Form2Exception => ExceptionType::Mode2Form2,
                _ => ExceptionType::Absent,
            };
            if kind != ExceptionType::Absent {
                let id = stored.get_or_register(bytes);
                self.exceptions.push((i, id));
            }
        }
    }

    /// Ends the mapping and hands out what was found.
    pub fn finish(self) -> (result: SectorMapResult)
        ensures
            forall|subheaders: Seq<Seq<u8>>, stored: Seq<Seq<u8>>|
                is_result_of(result, #[trigger] self.state(subheaders, stored)),
    {
        let mut sectors = self.sectors;
        let mut subheader_index = self.subheader_index;
        if let Some(run) = self.open_run {
            subheader_index.push(run);
        }
        let ghost found = sectors@;
        let mut i: usize = 0;
        while i < sectors.len()
            invariant
                i <= sectors@.len(),
                sectors@.len() == found.len(),
                forall|k: int| 0 <= k < i ==> #[trigger] sectors@[k] == settled(found[k]),
                forall|k: int| i <= k < found.len() ==> #[trigger] sectors@[k] == found[k],
            decreases sectors@.len() - i,
        {
            if sectors[i] == SectorType::Unmapped {
                sectors[i] = SectorType::PregapAudio;
            }
            i += 1;
        }
        assert(sectors@ =~= found.map_values(|t: SectorType| settled(t)));
        SectorMapResult {
            sector_map: SectorMap { sectors },
            exception_index: self.exceptions,
            subheader_index,
            lba_map: self.lba_map,
        }
    }
}

fn subheader_bytes(sector_type: SectorType, data: &[u8; 2352]) -> (bytes: [u8; 8])
    ensures
        bytes@ == subheader_of(sector_type, data@),
{
    let from: usize = match sector_type {
        SectorType::Mode2Form1 | SectorType::Mode2Form2 | SectorType::Mode2Form1Exception
        | SectorType::Mode2Form2Exception | SectorType::PregapMode1Exception
        | SectorType::PregapMode2Exception => 16,
        _ => 2068,
    };
    let bytes = [
        data[from],
        data[from + 1],
        data[from + 2],
        data[from + 3],
        data[from + 4],
        data[from + 5],
        data[from + 6],
        data[from + 7],
    ];
    assert(bytes@ =~= subheader_of(sector_type, data@));
    bytes
}

/// What is known after the first `n` sectors have been read and the data
/// sectors among them classified.
pub open spec fn mapped(
    start: MapState,
    reads: Seq<[u8; 2352]>,
    found: Seq<SectorAnalysis>,
    n: int,
) -> MapState
    decreases n,
{
    if n <= 0 {
        start
    } else {
        let state = mapped(start, reads, found, n - 1);
        if is_data(start.sectors[n - 1]) {
            map_step(
                state,
                (n - 1) as u32,
                reads[n - 1]@,
                found[n - 1].sector_type,
                vec_bytes(found[n - 1].exception_data),
            )
        } else {
            state
        }
    }
}

/// Whether sector `i` is among those read.
pub open spec fn was_read(reads: Seq<[u8; 2352]>, i: int) -> bool {
    0 <= i < reads.len()
}

/// Whether `analyze` classified the data sectors among the first ones, which were
/// read as `reads` says, as `found` says. `states` are those of the provider, one
/// before each sector and one behind the last.
pub open spec fn classified<
    P,
    A: Fn(&[u8; 2352], SectorType) -> Result<SectorAnalysis, AnalysisError>,
>(
    analyze: &A,
    coarse: Seq<SectorType>,
    states: Seq<P>,
    reads: Seq<[u8; 2352]>,
    found: Seq<SectorAnalysis>,
) -> bool {
    &&& states.len() == reads.len() + 1
    &&& found.len() == reads.len() <= coarse.len()
    &&& forall|i: int|
        0 <= i < reads.len() && is_data(coarse[i]) ==> call_ensures(
            *analyze,
            (&#[trigger] reads[i], coarse[i]),
            Ok(found[i]),
        )
}

/// Whether a mapping of a disc with the given coarse types ended well: all sectors
/// were read and classified, and the result and the tables are what these amount
/// to.
pub open spec fn mapping_done<
    P,
    A: Fn(&[u8; 2352], SectorType) -> Result<SectorAnalysis, AnalysisError>,
>(
    analyze: &A,
    start: MapState,
    states: Seq<P>,
    reads: Seq<[u8; 2352]>,
    found: Seq<SectorAnalysis>,
    result: SectorMapResult,
    subheaders: Seq<Seq<u8>>,
    stored: Seq<Seq<u8>>,
) -> bool {
    let end = mapped(start, reads, found, start.sectors.len() as int);
    &&& classified(analyze, start.sectors, states, reads, found)
    &&& reads.len() == start.sectors.len()
    &&& is_result_of(result, end)
    &&& subheaders == end.subheaders
    &&& stored == end.stored
}

/// Whether the answer to the request for sector `i` is one that a mapping stops at
/// with the given error: the provider fails, or `analyze` fails on what the
/// provider gives.
pub open spec fn stops_at<
    A: Fn(&[u8; 2352], SectorType) -> Result<SectorAnalysis, AnalysisError>,
>(
    analyze: &A,
    coarse: Seq<SectorType>,
    i: int,
    answer: Result<[u8; 2352], std::io::Error>,
    e: SpriteShrinkCDError,
) -> bool {
    match (answer, e) {
        (Err(failure), SpriteShrinkCDError::Io(cause)) => cause == failure,
        (Ok(data), SpriteShrinkCDError::Analysis(cause)) => is_data(coarse[i]) && call_ensures(
            *analyze,
            (&data, coarse[i]),
            Err(cause),
        ),
        _ => false,
    }
}

/// Whether a mapping stopped with the given error at the sector behind those read,
/// which had gone into the tables, for the given answer of the provider.
pub open spec fn mapping_stopped<
    P,
    A: Fn(&[u8; 2352], SectorType) -> Result<SectorAnalysis, AnalysisError>,
>(
    analyze: &A,
    start: MapState,
    states: Seq<P>,
    reads: Seq<[u8; 2352]>,
    found: Seq<SectorAnalysis>,
    answer: Result<[u8; 2352], std::io::Error>,
    e: SpriteShrinkCDError,
    subheaders: Seq<Seq<u8>>,
    stored: Seq<Seq<u8>>,
) -> bool {
    let end = mapped(start, reads, found, reads.len() as int);
    &&& classified(analyze, start.sectors, states, reads, found)
    &&& reads.len() < start.sectors.len()
    &&& stops_at(analyze, start.sectors, reads.len() as int, answer, e)
    &&& subheaders == end.subheaders
    &&& stored == end.stored
}

/// Reads and classifies the sectors of a disc whose coarse types are known.
fn map_sectors<
    P: SectorDataProvider,
    A: Fn(&[u8; 2352], SectorType) -> Result<SectorAnalysis, AnalysisError>,
>(
    sectors: Vec<SectorType>,
    total_sectors: u32,
    provider: &mut P,
    analyze: &A,
    subheader_registry: &mut SubheaderRegistry,
    exception_registry: &mut ExceptionRegistry,
) -> (r: Result<SectorMapResult, SpriteShrinkCDError>)
    requires
        sectors@.len() == total_sectors,
        old(subheader_registry).wf(),
        old(exception_registry).wf(),
        forall|data: &[u8; 2352], t: SectorType| call_requires(*analyze, (data, t)),
    ensures
        final(subheader_registry).wf(),
        final(exception_registry).wf(),
        r matches Ok(result) ==> exists|
            states: Seq<P>,
            reads: Seq<[u8; 2352]>,
            found: Seq<SectorAnalysis>,
        | #[trigger]
            mapping_done(
                analyze,
                start_state(sectors@, old(subheader_registry)@, old(exception_registry)@),
                states,
                reads,
                found,
                result,
                final(subheader_registry)@,
                final(exception_registry)@,
            ) && states[0] == *old(provider) && states.last() == *final(provider)
                && forall|i: int| #[trigger]
                was_read(reads, i) ==> exists|p: &mut P|
                    *p == states[i] && *final(p) == states[i + 1] && #[trigger] call_ensures(
                        P::read_sector,
                        (p, i as u32),
                        Ok(reads[i]),
                    ),
        r matches Err(e) ==> exists|
            states: Seq<P>,
            reads: Seq<[u8; 2352]>,
            found: Seq<SectorAnalysis>,
            answer: Result<[u8; 2352], std::io::Error>,
        | #[trigger]
            mapping_stopped(
                analyze,
                start_state(sectors@, old(subheader_registry)@, old(exception_registry)@),
                states,
                reads,
                found,
                answer,
                e,
                final(subheader_registry)@,
                final(exception_registry)@,
            ) && states[0] == *old(provider) && (exists|p: &mut P|
                *p == states.last() && *final(p) == *final(provider) && #[trigger] call_ensures(
                    P::read_sector,
                    (p, reads.len() as u32),
                    answer,
                )) && forall|i: int| #[trigger]
                was_read(reads, i) ==> exists|p: &mut P|
                    *p == states[i] && *final(p) == states[i + 1] && #[trigger] call_ensures(
                        P::read_sector,
                        (p, i as u32),
                        Ok(reads[i]),
                    ),
{
    let ghost coarse = sectors@;
    let ghost start = start_state(coarse, subheader_registry@, exception_registry@);
    let ghost mut reads: Seq<[u8; 2352]> = Seq::empty();
    let ghost mut found: Seq<SectorAnalysis> = Seq::empty();
    let ghost mut states: Seq<P> = seq![*provider];
    let mut mapper = DiscMapper::new(sectors);
    let mut i: u32 = 0;
    while i < total_sectors
        invariant
            i <= total_sectors,
            coarse == sectors@,
            coarse.len() == total_sectors,
            start.sectors == coarse,
            start == start_state(coarse, old(subheader_registry)@, old(exception_registry)@),
            mapper.wf(i as int),
            mapper.types().len() == total_sectors,
            forall|k: int| i <= k < total_sectors ==> mapper.types()[k] == coarse[k],
            subheader_registry.wf(),
            exception_registry.wf(),
            reads.len() == i,
            classified(analyze, coarse, states, reads, found),
            forall|k: int| #[trigger]
                was_read(reads, k) ==> exists|p: &mut P|
                    *p == states[k] && *final(p) == states[k + 1] && #[trigger] call_ensures(
                        P::read_sector,
                        (p, k as u32),
                        Ok(reads[k]),
                    ),
            states[0] == *old(provider),
            states[i as int] == *provider,
            mapper.state(subheader_registry@, exception_registry@) == mapped(
                start,
                reads,
                found,
                i as int,
            ),
            forall|data: &[u8; 2352], t: SectorType| call_requires(*analyze, (data, t)),
        decreases total_sectors - i,
    {
        let sector_data = match provider.read_sector(i) {
            Ok(data) => data,
            Err(e) => {
                let out = SpriteShrinkCDError::Io(e);
                proof {
                    assert(out->Io_0 == e);
                    assert(mapping_stopped(
                        analyze,
                        start,
                        states,
                        reads,
                        found,
                        Err(e),
                        out,
                        subheader_registry@,
                        exception_registry@,
                    ));
                    assert(states.last() == states[i as int]);
                    assert(reads.len() as u32 == i);
                    assert(exists|p: &mut P|
                        *p == states.last() && *final(p) == *provider && #[trigger] call_ensures(
                            P::read_sector,
                            (p, reads.len() as u32),
                            Err(e),
                        ));
                }
                return Err(out);
            },
        };
        assert(exists|p: &mut P|
            *p == states[i as int] && *final(p) == *provider && #[trigger] call_ensures(
                P::read_sector,
                (p, i),
                Ok(sector_data),
            ));
        let coarse_type = mapper.sector_type(i);
        let ghost old_reads = reads;
        let ghost old_found = found;
        let ghost old_states = states;
        proof {
            reads = reads.push(sector_data);
            states = states.push(*provider);
        }
        if coarse_type == SectorType::Mode1 || coarse_type == SectorType::Mode2Form1 || coarse_type
            == SectorType::PregapMode1 || coarse_type == SectorType::PregapMode2 {
            let analysis = match analyze(&sector_data, coarse_type) {
                Ok(analysis) => analysis,
                Err(e) => {
                    let out = SpriteShrinkCDError::Analysis(e);
                    proof {
                        assert(out->Analysis_0 == e);
                        assert(mapping_stopped(
                            analyze,
                            start,
                            old_states,
                            old_reads,
                            found,
                            Ok(sector_data),
                            out,
                            subheader_registry@,
                            exception_registry@,
                        ));
                        assert(old_states.last() == old_states[i as int]);
                        assert(old_reads.len() as u32 == i);
                        assert(exists|p: &mut P|
                            *p == old_states.last() && *final(p) == *provider
                                && #[trigger] call_ensures(
                                P::read_sector,
                                (p, old_reads.len() as u32),
                                Ok(sector_data),
                            ));
                    }
                    return Err(out);
                },
            };
            proof {
                found = found.push(analysis);
            }
            mapper.record(
                i,
                &sector_data,
                analysis,
                subheader_registry,
                exception_registry,
            );
        } else {
            proof {
                found = found.push(vstd::pervasive::arbitrary());
            }
        }
        proof {
            lemma_mapped_prefix(start, old_reads, old_found, reads, found, i as int);
            assert forall|k: int| #[trigger] was_read(reads, k) implies exists|p: &mut P|
                *p == states[k] && *final(p) == states[k + 1] && #[trigger] call_ensures(
                    P::read_sector,
                    (p, k as u32),
                    Ok(reads[k]),
                ) by {
                if k < i {
                    assert(was_read(old_reads, k));
                    assert(reads[k] == old_reads[k]);
                    assert(states[k] == old_states[k]);
                    assert(states[k + 1] == old_states[k + 1]);
                } else {
                    assert(k as u32 == i);
                    assert(reads[k] == sector_data);
                    assert(states[k] == old_states[i as int]);
                    assert(states[k + 1] == *provider);
                }
            }
            assert forall|k: int| 0 <= k < i + 1 && is_data(coarse[k]) implies call_ensures(
                *analyze,
                (&#[trigger] reads[k], coarse[k]),
                Ok(found[k]),
            ) by {
                if k < i {
                    assert(reads[k] == old_reads[k]);
                }
            }
        }
        i += 1;
    }
    let result = mapper.finish();
    assert(states.last() == states[i as int]);
    assert(mapping_done(
        analyze,
        start,
        states,
        reads,
        found,
        result,
        subheader_registry@,
        exception_registry@,
    ));
    let out: Result<SectorMapResult, SpriteShrinkCDError> = Ok(result);
    assert(out->Ok_0 == result);
    out
}

/// The first `n` observations alone decide what is known after `n` sectors.
proof fn lemma_mapped_prefix(
    start: MapState,
    reads: Seq<[u8; 2352]>,
    found: Seq<SectorAnalysis>,
    more_reads: Seq<[u8; 2352]>,
    more_found: Seq<SectorAnalysis>,
    n: int,
)
    requires
        0 <= n <= reads.len(),
        n <= found.len(),
        n <= more_reads.len(),
        n <= more_found.len(),
        forall|k: int| 0 <= k < n ==> reads[k] == more_reads[k],
        forall|k: int| 0 <= k < n ==> found[k] == more_found[k],
    ensures
        mapped(start, reads, found, n) == mapped(start, more_reads, more_found, n),
    decreases n,
{
    if n > 0 {
        lemma_mapped_prefix(start, reads, found, more_reads, more_found, n - 1);
    }
}

/// The tracks that a disc is mapped by: those of the only file, or those of all
/// files merged.
pub open spec fn effective_tracks(cue_sheet: CueSheet, counts: Seq<u32>) -> Seq<TrackView> {
    if cue_sheet.files@.len() > 1 {
        normalized(cue_sheet.files@, counts, cue_sheet.files@.len() as int)
    } else {
        disc::track_views(cue_sheet.files@[0].tracks@)
    }
}

/// Whether a sheet has several files but not one sector count for each.
pub open spec fn counts_mismatch(cue_sheet: CueSheet, counts: Seq<u32>) -> bool {
    cue_sheet.files@.len() > 1 && counts.len() != cue_sheet.files@.len()
}

/// Maps a disc: finds the type of every sector and collects what is needed to
/// rebuild the data sectors from their user data.
pub fn analyze_and_map_disc<
    P: SectorDataProvider,
    A: Fn(&[u8; 2352], SectorType) -> Result<SectorAnalysis, AnalysisError>,
>(
    cue_sheet: &CueSheet,
    file_sec_count: &[u32],
    provider: &mut P,
    analyze: &A,
    subheader_registry: &mut SubheaderRegistry,
    exception_registry: &mut ExceptionRegistry,
) -> (r: Result<SectorMapResult, SpriteShrinkCDError>)
    requires
        counts_mismatch(*cue_sheet, file_sec_count@) || sectors_before(
            file_sec_count@,
            file_sec_count@.len() as int,
        ) <= u32::MAX,
        cue_sheet.files@.len() > 1 && file_sec_count@.len() == cue_sheet.files@.len()
            ==> positions_fit(cue_sheet.files@, file_sec_count@),
        old(subheader_registry).wf(),
        old(exception_registry).wf(),
        forall|data: &[u8; 2352], t: SectorType| call_requires(*analyze, (data, t)),
    ensures
        final(subheader_registry).wf(),
        final(exception_registry).wf(),
        r matches Err(SpriteShrinkCDError::Mapper(_)) ==> *final(provider) == *old(provider)
            && final(subheader_registry)@ == old(subheader_registry)@ && final(exception_registry)@
            == old(exception_registry)@,
        counts_mismatch(*cue_sheet, file_sec_count@) ==> r == Err::<
            SectorMapResult,
            SpriteShrinkCDError,
        >(
            SpriteShrinkCDError::Mapper(
                MapperError::FileCountMismatch(file_sec_count.len(), cue_sheet.files.len()),
            ),
        ),
        cue_sheet.files@.len() == 0 ==> r == Err::<SectorMapResult, SpriteShrinkCDError>(
            SpriteShrinkCDError::Mapper(MapperError::EmptyCueSheet),
        ),
        !counts_mismatch(*cue_sheet, file_sec_count@) && cue_sheet.files@.len() > 0 ==> ({
            let tracks = effective_tracks(*cue_sheet, file_sec_count@);
            let total = sectors_before(file_sec_count@, file_sec_count@.len() as int);
            &&& forall|k: int| #[trigger]
                first_without_index(tracks, k) ==> r == Err::<
                    SectorMapResult,
                    SpriteShrinkCDError,
                >(SpriteShrinkCDError::Mapper(MapperError::MissingIndex01(tracks[k].number)))
            &&& all_indexed(tracks) ==> match r {
                Ok(result) => exists|
                    states: Seq<P>,
                    reads: Seq<[u8; 2352]>,
                    found: Seq<SectorAnalysis>,
                | #[trigger]
                    mapping_done(
                        analyze,
                        start_state(
                            coarse_map(tracks, total),
                            old(subheader_registry)@,
                            old(exception_registry)@,
                        ),
                        states,
                        reads,
                        found,
                        result,
                        final(subheader_registry)@,
                        final(exception_registry)@,
                    ) && states[0] == *old(provider) && states.last() == *final(provider)
                        && forall|i: int| #[trigger]
                        was_read(reads, i) ==> exists|p: &mut P|
                            *p == states[i] && *final(p) == states[i + 1] && #[trigger] call_ensures(
                                P::read_sector,
                                (p, i as u32),
                                Ok(reads[i]),
                            ),
                Err(e) => exists|
                    states: Seq<P>,
                    reads: Seq<[u8; 2352]>,
                    found: Seq<SectorAnalysis>,
                    answer: Result<[u8; 2352], std::io::Error>,
                | #[trigger]
                    mapping_stopped(
                        analyze,
                        start_state(
                            coarse_map(tracks, total),
                            old(subheader_registry)@,
                            old(exception_registry)@,
                        ),
                        states,
                        reads,
                        found,
                        answer,
                        e,
                        final(subheader_registry)@,
                        final(exception_registry)@,
                    ) && states[0] == *old(provider) && (exists|p: &mut P|
                        *p == states.last() && *final(p) == *final(provider) && #[trigger] call_ensures(
                            P::read_sector,
                            (p, reads.len() as u32),
                            answer,
                        )) && forall|i: int| #[trigger]
                        was_read(reads, i) ==> exists|p: &mut P|
                            *p == states[i] && *final(p) == states[i + 1] && #[trigger] call_ensures(
                                P::read_sector,
                                (p, i as u32),
                                Ok(reads[i]),
                            ),
            }
        }),
{
    let sectors = if cue_sheet.files.len() > 1 {
        let sheet = match normalize_cue_sheet(
            cue_sheet,
            file_sec_count,
            cue_sheet.source_filename.as_str(),
        ) {
            Ok(sheet) => sheet,
            Err(e) => return Err(SpriteShrinkCDError::Mapper(e)),
        };
        let total_sectors = sum_sectors(file_sec_count);
        match assign_tracks(&sheet.files[0].tracks, total_sectors) {
            Ok(sectors) => sectors,
            Err(e) => {
                proof {
                    let tracks = effective_tracks(*cue_sheet, file_sec_count@);
                    lemma_indexed_or_not(tracks);
                }
                return Err(SpriteShrinkCDError::Mapper(e));
            },
        }
    } else {
        let total_sectors = sum_sectors(file_sec_count);
        if cue_sheet.files.len() == 0 {
            return Err(SpriteShrinkCDError::Mapper(MapperError::EmptyCueSheet));
        }
        match assign_tracks(&cue_sheet.files[0].tracks, total_sectors) {
            Ok(sectors) => sectors,
            Err(e) => {
                proof {
                    let tracks = effective_tracks(*cue_sheet, file_sec_count@);
                    lemma_indexed_or_not(tracks);
                }
                return Err(SpriteShrinkCDError::Mapper(e));
            },
        }
    };
    proof {
        lemma_indexed_or_not(effective_tracks(*cue_sheet, file_sec_count@));
    }
    let total_sectors = sum_sectors(file_sec_count);
    map_sectors(
        sectors,
        total_sectors,
        provider,
        analyze,
        subheader_registry,
        exception_registry,
    )
}

/// Either every track has an index 1, or there is a first one without.
proof fn lemma_indexed_or_not(tracks: Seq<TrackView>)
    ensures
        all_indexed(tracks) || exists|k: int| first_without_index(tracks, k),
    decreases tracks.len(),
{
    if tracks.len() > 0 {
        let front = tracks.drop_last();
        lemma_indexed_or_not(front);
        if all_indexed(front) {
            assert forall|j: int| 0 <= j < front.len() implies content_start(
                #[trigger] tracks[j],
            ) is Some by {
                assert(front[j] == tracks[j]);
            }
            if content_start(tracks.last()) is None {
                assert(first_without_index(tracks, tracks.len() - 1));
            }
        } else {
            let k = choose|k: int| first_without_index(front, k);
            assert forall|j: int| 0 <= j < k implies content_start(#[trigger] tracks[j]) is Some by {
                assert(front[j] == tracks[j]);
            }
            assert(first_without_index(tracks, k));
        }
    }
}

fn sum_sectors(counts: &[u32]) -> (total: u32)
    requires
        sectors_before(counts@, counts@.len() as int) <= u32::MAX,
    ensures
        total == sectors_before(counts@, counts@.len() as int),
{
    let mut total: u32 = 0;
    let mut n: usize = 0;
    while n < counts.len()
        invariant
            n <= counts@.len(),
            total == sectors_before(counts@, n as int),
            sectors_before(counts@, counts@.len() as int) <= u32::MAX,
        decreases counts@.len() - n,
    {
        proof {
            lemma_sectors_before_monotonic(counts@, n + 1, counts@.len() as int);
        }
        total = total + counts[n];
        n += 1;
    }
    total
}

// ---------------------------------------------------------------------------
// What a mapping remembers
// ---------------------------------------------------------------------------

/// Whether `n` sectors into a mapping, the runs and tables give back the
/// subheader of every data sector seen, and nothing for any other sector.
pub open spec fn subheaders_kept(
    state: MapState,
    start: MapState,
    reads: Seq<[u8; 2352]>,
    found: Seq<SectorAnalysis>,
    n: int,
) -> bool {
    forall|i: int|
        0 <= i ==> {
            let id = #[trigger] reconstruction::subheader_at(all_runs(state), i);
            if i < n && is_data(start.sectors[i]) {
                &&& id is Some
                &&& id->0 < state.subheaders.len()
                &&& state.subheaders[id->0 as int] == subheader_of(
                    found[i].sector_type,
                    reads[i]@,
                )
            } else {
                id is None
            }
        }
}

/// Whether `n` sectors into a mapping, the index and the table give back the
/// deviating bytes of every sector for which they are kept, and nothing for any
/// other sector.
pub open spec fn exceptions_kept(
    state: MapState,
    start: MapState,
    found: Seq<SectorAnalysis>,
    n: int,
) -> bool {
    forall|i: int|
        0 <= i ==> {
            let id = #[trigger] reconstruction::exception_at(state.exceptions, i);
            if i < n && is_data(start.sectors[i]) && keeps_exception(found[i].sector_type)
                && found[i].exception_data is Some {
                &&& id is Some
                &&& id->0 < state.stored.len()
                &&& state.stored[id->0 as int] == found[i].exception_data->0@
            } else {
                id is None
            }
        }
}

/// Tables only grow.
pub open spec fn extends(table: Seq<Seq<u8>>, later: Seq<Seq<u8>>) -> bool {
    table.len() <= later.len() && forall|i: int| 0 <= i < table.len() ==> table[i] == later[i]
}

proof fn lemma_registered(table: Seq<Seq<u8>>, value: Seq<u8>)
    ensures
        extends(table, registered(table, value)),
        registered(table, value).contains(value),
        0 <= registered(table, value).index_of(value) < registered(table, value).len(),
        registered(table, value)[registered(table, value).index_of(value)] == value,
{
    let later = registered(table, value);
    if !table.contains(value) {
        assert(later[table.len() as int] == value);
    }
    assert(later.contains(value));
}

/// The tables at an earlier point of a mapping are prefixes of those at a later
/// one.
proof fn lemma_tables_grow(
    start: MapState,
    reads: Seq<[u8; 2352]>,
    found: Seq<SectorAnalysis>,
    m: int,
    n: int,
)
    requires
        0 <= m <= n,
    ensures
        extends(
            mapped(start, reads, found, m).subheaders,
            mapped(start, reads, found, n).subheaders,
        ),
        extends(mapped(start, reads, found, m).stored, mapped(start, reads, found, n).stored),
    decreases n,
{
    if m < n {
        lemma_tables_grow(start, reads, found, m, n - 1);
        let state = mapped(start, reads, found, n - 1);
        if is_data(start.sectors[n - 1]) {
            lemma_registered(
                state.subheaders,
                subheader_of(found[n - 1].sector_type, reads[n - 1]@),
            );
            if found[n - 1].exception_data is Some {
                lemma_registered(state.stored, found[n - 1].exception_data->0@);
            }
        }
    }
}

/// The open run, if there is one, ends at or before sector `n`.
pub open spec fn open_run_before(state: MapState, n: int) -> bool {
    state.open_run matches Some(run) ==> run.start_lba + run.count <= n
}

proof fn lemma_subheaders_kept(
    start: MapState,
    reads: Seq<[u8; 2352]>,
    found: Seq<SectorAnalysis>,
    n: int,
)
    requires
        0 <= n <= start.sectors.len(),
        start.sectors.len() <= u32::MAX,
        start.subheader_index.len() == 0,
        start.open_run is None,
        mapped(start, reads, found, n).subheaders.len() <= 65536,
    ensures
        subheaders_kept(mapped(start, reads, found, n), start, reads, found, n),
        open_run_before(mapped(start, reads, found, n), n),
    decreases n,
{
    if n == 0 {
        assert forall|i: int| 0 <= i implies #[trigger] reconstruction::subheader_at(
            all_runs(start),
            i,
        ) is None by {}
    } else {
        lemma_tables_grow(start, reads, found, n - 1, n);
        lemma_subheaders_kept(start, reads, found, n - 1);
        let state = mapped(start, reads, found, n - 1);
        let next = mapped(start, reads, found, n);
        if is_data(start.sectors[n - 1]) {
            let value = subheader_of(found[n - 1].sector_type, reads[n - 1]@);
            lemma_registered(state.subheaders, value);
            let at = next.subheaders.index_of(value);
            let id = (at % 65536) as u16;
            assert(id == at);
            lemma_run_step(state, next, (n - 1) as u32, id);
            assert forall|i: int| 0 <= i implies ({
                let id = #[trigger] reconstruction::subheader_at(all_runs(next), i);
                if i < n && is_data(start.sectors[i]) {
                    &&& id is Some
                    &&& id->0 < next.subheaders.len()
                    &&& next.subheaders[id->0 as int] == subheader_of(
                        found[i].sector_type,
                        reads[i]@,
                    )
                } else {
                    id is None
                }
            }) by {
                let earlier = reconstruction::subheader_at(all_runs(state), i);
            }
        } else {
            assert forall|i: int| 0 <= i implies ({
                let id = #[trigger] reconstruction::subheader_at(all_runs(next), i);
                if i < n && is_data(start.sectors[i]) {
                    &&& id is Some
                    &&& id->0 < next.subheaders.len()
                    &&& next.subheaders[id->0 as int] == subheader_of(
                        found[i].sector_type,
                        reads[i]@,
                    )
                } else {
                    id is None
                }
            }) by {
                let earlier = reconstruction::subheader_at(all_runs(state), i);
            }
        }
    }
}

/// Recording sector `i` changes the number found for that sector alone.
proof fn lemma_run_step(state: MapState, next: MapState, i: u32, id: u16)
    requires
        i < u32::MAX,
        open_run_before(state, i as int),
        (next.subheader_index, next.open_run) == run_step(
            state.subheader_index,
            state.open_run,
            i,
            id,
        ),
    ensures
        open_run_before(next, i + 1),
        forall|k: int|
            0 <= k ==> #[trigger] reconstruction::subheader_at(all_runs(next), k) == (if k == i {
                Some(id)
            } else {
                reconstruction::subheader_at(all_runs(state), k)
            }),
{
    let runs = all_runs(state);
    let later = all_runs(next);
    let grown = state.open_run matches Some(run) && run.data_id == id && i == run.start_lba
        + run.count;
    if grown {
        assert(runs.drop_last() =~= state.subheader_index);
        assert(later.drop_last() =~= state.subheader_index);
    } else {
        assert(later.drop_last() =~= runs);
    }
}

proof fn lemma_exceptions_kept(
    start: MapState,
    reads: Seq<[u8; 2352]>,
    found: Seq<SectorAnalysis>,
    n: int,
)
    requires
        0 <= n <= start.sectors.len(),
        start.sectors.len() <= u32::MAX,
        start.exceptions.len() == 0,
        mapped(start, reads, found, n).stored.len() <= 4294967296,
    ensures
        exceptions_kept(mapped(start, reads, found, n), start, found, n),
    decreases n,
{
    if n == 0 {
        assert forall|i: int| 0 <= i implies #[trigger] reconstruction::exception_at(
            start.exceptions,
            i,
        ) is None by {}
    } else {
        lemma_tables_grow(start, reads, found, n - 1, n);
        lemma_exceptions_kept(start, reads, found, n - 1);
        let state = mapped(start, reads, found, n - 1);
        let next = mapped(start, reads, found, n);
        let f = found[n - 1];
        if is_data(start.sectors[n - 1]) && keeps_exception(f.sector_type) && f.exception_data
            is Some {
            let value = f.exception_data->0@;
            lemma_registered(state.stored, value);
            let at = next.stored.index_of(value);
            assert((at % 4294967296) as u32 == at);
            assert(next.exceptions.drop_last() =~= state.exceptions);
        }
        assert forall|i: int| 0 <= i implies ({
            let id = #[trigger] reconstruction::exception_at(next.exceptions, i);
            if i < n && is_data(start.sectors[i]) && keeps_exception(found[i].sector_type)
                && found[i].exception_data is Some {
                &&& id is Some
                &&& id->0 < next.stored.len()
                &&& next.stored[id->0 as int] == found[i].exception_data->0@
            } else {
                id is None
            }
        }) by {
            let earlier = reconstruction::exception_at(state.exceptions, i);
        }
    }
}

/// A mapping remembers every subheader: the runs and the table that it yields
/// give back the subheader bytes of each data sector, and nothing for sectors
/// that carry none. It takes a disc with no more distinct subheaders than there
/// are numbers for them.
pub proof fn law_subheaders_are_found_again(
    coarse: Seq<SectorType>,
    subheaders: Seq<Seq<u8>>,
    stored: Seq<Seq<u8>>,
    reads: Seq<[u8; 2352]>,
    found: Seq<SectorAnalysis>,
    result: SectorMapResult,
    sector: int,
)
    requires
        coarse.len() <= u32::MAX,
        0 <= sector < coarse.len(),
        ({
            let end = mapped(
                start_state(coarse, subheaders, stored),
                reads,
                found,
                coarse.len() as int,
            );
            is_result_of(result, end) && end.subheaders.len() <= 65536
        }),
    ensures
        ({
            let end = mapped(
                start_state(coarse, subheaders, stored),
                reads,
                found,
                coarse.len() as int,
            );
            let id = reconstruction::subheader_at(result.subheader_index@, sector);
            if is_data(coarse[sector]) {
                id is Some && id->0 < end.subheaders.len() && end.subheaders[id->0 as int]
                    == subheader_of(found[sector].sector_type, reads[sector]@)
            } else {
                id is None
            }
        }),
{
    lemma_subheaders_kept(
        start_state(coarse, subheaders, stored),
        reads,
        found,
        coarse.len() as int,
    );
}

/// A mapping remembers every deviation: the index and the table that it yields
/// give back the deviating bytes of each sector for which they are kept, and
/// nothing for other sectors.
pub proof fn law_exceptions_are_found_again(
    coarse: Seq<SectorType>,
    subheaders: Seq<Seq<u8>>,
    stored: Seq<Seq<u8>>,
    reads: Seq<[u8; 2352]>,
    found: Seq<SectorAnalysis>,
    result: SectorMapResult,
    sector: int,
)
    requires
        coarse.len() <= u32::MAX,
        0 <= sector < coarse.len(),
        ({
            let end = mapped(
                start_state(coarse, subheaders, stored),
                reads,
                found,
                coarse.len() as int,
            );
            is_result_of(result, end) && end.stored.len() <= 4294967296
        }),
    ensures
        ({
            let end = mapped(
                start_state(coarse, subheaders, stored),
                reads,
                found,
                coarse.len() as int,
            );
            let id = reconstruction::exception_at(result.exception_index@, sector);
            if is_data(coarse[sector]) && keeps_exception(found[sector].sector_type)
                && found[sector].exception_data is Some {
                id is Some && id->0 < end.stored.len() && end.stored[id->0 as int]
                    == found[sector].exception_data->0@
            } else {
                id is None
            }
        }),
{
    lemma_exceptions_kept(
        start_state(coarse, subheaders, stored),
        reads,
        found,
        coarse.len() as int,
    );
}

// ---------------------------------------------------------------------------
// What tracks say of their sectors
// ---------------------------------------------------------------------------

/// Whether a track has an index point with the given number.
pub open spec fn has_index(track: TrackView, number: u8) -> bool {
    exists|j: int| 0 <= j < track.indices.len() && (#[trigger] track.indices[j]).number == number
}

/// Whether every index point of a track with the given number is at or before a
/// sector.
pub open spec fn index_reached(track: TrackView, number: u8, sector: int) -> bool {
    forall|j: int|
        0 <= j < track.indices.len() && (#[trigger] track.indices[j]).number == number
            ==> track.indices[j].position.frames() <= sector
}

/// Whether every index point of a track is behind a sector.
pub open spec fn lies_behind(track: TrackView, sector: int) -> bool {
    forall|j: int|
        0 <= j < track.indices.len() ==> (#[trigger] track.indices[j]).position.frames() > sector
}

/// Whether every index point of a track with the given number is behind a sector.
pub open spec fn index_ahead(track: TrackView, number: u8, sector: int) -> bool {
    forall|j: int|
        0 <= j < track.indices.len() && (#[trigger] track.indices[j]).number == number
            ==> track.indices[j].position.frames() > sector
}

proof fn lemma_index_frames(indices: Seq<TrackIndex>, number: u8)
    ensures
        match index_frames(indices, number) {
            Some(f) => exists|j: int|
                0 <= j < indices.len() && (#[trigger] indices[j]).number == number
                    && indices[j].position.frames() == f,
            None => forall|j: int| 0 <= j < indices.len() ==> (#[trigger] indices[j]).number != number,
        },
    decreases indices.len(),
{
    if indices.len() > 0 && indices[0].number != number {
        let rest = indices.drop_first();
        lemma_index_frames(rest, number);
        match index_frames(rest, number) {
            Some(f) => {
                let j = choose|j: int|
                    0 <= j < rest.len() && (#[trigger] rest[j]).number == number
                        && rest[j].position.frames() == f;
                assert(indices[j + 1] == rest[j]);
            },
            None => {
                assert forall|j: int| 0 <= j < indices.len() implies (
                #[trigger] indices[j]).number != number by {
                    if j > 0 {
                        assert(indices[j] == rest[j - 1]);
                    }
                }
            },
        }
    } else if indices.len() > 0 {
        assert(indices[0].number == number);
    }
}

/// Where all that a track spans lies behind a sector, the track does not say
/// anything of the sector.
proof fn lemma_later_tracks(tracks: Seq<TrackView>, n: int, k: int, total: int, sector: int)
    requires
        0 <= k < n <= tracks.len(),
        forall|t: int| 0 <= t < tracks.len() ==> has_index(#[trigger] tracks[t], 1),
        forall|t: int| k < t < tracks.len() ==> lies_behind(#[trigger] tracks[t], sector),
    ensures
        coarse_type(tracks, n, total, sector) == coarse_type(tracks, k + 1, total, sector),
    decreases n,
{
    if n > k + 1 {
        let track = tracks[n - 1];
        lemma_later_tracks(tracks, n - 1, k, total, sector);
        lemma_index_frames(track.indices, 1);
        lemma_index_frames(track.indices, 0);
        assert(has_index(track, 1));
        assert(lies_behind(track, sector));
    }
}

proof fn lemma_track_end(tracks: Seq<TrackView>, k: int, total: int, sector: int)
    requires
        0 <= k < tracks.len(),
        sector < total,
        forall|t: int| 0 <= t < tracks.len() ==> has_index(#[trigger] tracks[t], 1),
        forall|t: int| k < t < tracks.len() ==> lies_behind(#[trigger] tracks[t], sector),
    ensures
        sector < track_end(tracks, k, total),
{
    if k + 1 < tracks.len() {
        let next = tracks[k + 1];
        lemma_index_frames(next.indices, 1);
        lemma_index_frames(next.indices, 0);
        assert(has_index(next, 1));
        assert(lies_behind(next, sector));
    }
}

/// Every sector of a track's content, from its INDEX 01 up to the next track or to
/// the end of the disc, is taken for what the track holds. Sectors of a data track
/// are looked at as data of the track's mode and never taken for audio, and audio
/// is not looked at.
pub proof fn law_content_is_mapped_by_its_track(
    tracks: Seq<TrackView>,
    total: int,
    k: int,
    sector: int,
)
    requires
        0 <= k < tracks.len(),
        0 <= sector < total,
        forall|t: int| 0 <= t < tracks.len() ==> has_index(#[trigger] tracks[t], 1),
        index_reached(tracks[k], 1, sector),
        forall|t: int| k < t < tracks.len() ==> lies_behind(#[trigger] tracks[t], sector),
    ensures
        coarse_map(tracks, total).len() == total,
        ({
            let found = coarse_map(tracks, total)[sector];
            match tracks[k].track_type {
                TrackType::Audio => found is Audio && !is_data(found) && found.audio(),
                TrackType::Mode1_2352 => found is Mode1 && is_data(found) && !found.audio()
                    && found.user_start() == 16 && found.user_len() == 2048,
                TrackType::Mode2_2352 => found is Mode2Form1 && is_data(found) && !found.audio()
                    && found.user_start() == 24 && found.user_len() == 2048,
            }
        }),
{
    let track = tracks[k];
    lemma_later_tracks(tracks, tracks.len() as int, k, total, sector);
    lemma_track_end(tracks, k, total, sector);
    lemma_index_frames(track.indices, 1);
    assert(has_index(track, 1));
}

/// Every sector of a track's gap, from its INDEX 00 up to its INDEX 01, is taken
/// for a gap of the track's mode. The gap of a data track is looked at as data, and
/// that of an audio track is not looked at.
pub proof fn law_gap_is_mapped_by_its_track(
    tracks: Seq<TrackView>,
    total: int,
    k: int,
    sector: int,
)
    requires
        0 <= k < tracks.len(),
        0 <= sector < total,
        forall|t: int| 0 <= t < tracks.len() ==> has_index(#[trigger] tracks[t], 1),
        has_index(tracks[k], 0),
        index_reached(tracks[k], 0, sector),
        index_ahead(tracks[k], 1, sector),
        forall|t: int| k < t < tracks.len() ==> lies_behind(#[trigger] tracks[t], sector),
    ensures
        ({
            let found = coarse_map(tracks, total)[sector];
            match tracks[k].track_type {
                TrackType::Audio => found is PregapAudio && !is_data(found) && found.audio(),
                TrackType::Mode1_2352 => found is PregapMode1 && is_data(found) && !found.audio(),
                TrackType::Mode2_2352 => found is PregapMode2 && is_data(found) && !found.audio(),
            }
        }),
{
    let track = tracks[k];
    lemma_later_tracks(tracks, tracks.len() as int, k, total, sector);
    lemma_index_frames(track.indices, 1);
    lemma_index_frames(track.indices, 0);
    assert(has_index(track, 1));
}

/// Sectors in front of the first index point of all tracks belong to none.
pub proof fn law_sectors_before_all_tracks_are_unmapped(
    tracks: Seq<TrackView>,
    total: int,
    sector: int,
)
    requires
        0 <= sector < total,
        forall|t: int| 0 <= t < tracks.len() ==> has_index(#[trigger] tracks[t], 1),
        forall|t: int| 0 <= t < tracks.len() ==> lies_behind(#[trigger] tracks[t], sector),
    ensures
        coarse_map(tracks, total)[sector] is Unmapped,
{
    if tracks.len() > 0 {
        let track = tracks[0];
        lemma_later_tracks(tracks, tracks.len() as int, 0, total, sector);
        lemma_index_frames(track.indices, 1);
        lemma_index_frames(track.indices, 0);
        assert(has_index(track, 1));
        assert(lies_behind(track, sector));
        assert(coarse_type(tracks, 0, total, sector) is Unmapped);
        assert(coarse_type(tracks, 1, total, sector) == coarse_type(tracks, 0, total, sector));
    }
}

/// A track counts as indexed if it has an INDEX 01, whatever else it has.
pub proof fn law_index_one_is_what_a_track_needs(track: TrackView)
    ensures
        content_start(track) is Some <==> has_index(track, 1),
        track_start(track) is Some <==> has_index(track, 1),
{
    lemma_index_frames(track.indices, 1);
    lemma_index_frames(track.indices, 0);
}

/// Number of tracks in the first `n` files.
pub open spec fn tracks_before(files: Seq<CueFile>, n: int) -> int
    decreases n,
{
    if n <= 0 {
        0
    } else {
        tracks_before(files, n - 1) + files[n - 1].tracks@.len()
    }
}

proof fn lemma_normalized_len(files: Seq<CueFile>, counts: Seq<u32>, n: int)
    requires
        0 <= n <= files.len(),
    ensures
        normalized(files, counts, n).len() == tracks_before(files, n),
        tracks_before(files, n) >= 0,
    decreases n,
{
    if n > 0 {
        lemma_normalized_len(files, counts, n - 1);
    }
}

/// Merging files keeps all tracks, in order, with their numbers and types, and
/// keeps the numbers of their index points. Every position moves by the lengths of
/// the files before: the first file stays in place, and each file starts where the
/// one before it ends.
pub proof fn law_merged_tracks_follow_each_other(
    files: Seq<CueFile>,
    counts: Seq<u32>,
    f: int,
    t: int,
    n: int,
)
    requires
        0 <= f < n <= files.len(),
        files.len() == counts.len(),
        0 <= t < files[f].tracks@.len(),
    ensures
        sectors_before(counts, 0) == 0,
        sectors_before(counts, f + 1) == sectors_before(counts, f) + counts[f],
        normalized(files, counts, n).len() == tracks_before(files, n),
        0 <= tracks_before(files, f) + t < tracks_before(files, n),
        ({
            let source = files[f].tracks@[t];
            let moved = normalized(files, counts, n)[tracks_before(files, f) + t];
            &&& moved.number == source.number
            &&& moved.track_type == source.track_type
            &&& moved.indices.len() == source.indices@.len()
            &&& forall|x: int|
                0 <= x < moved.indices.len() ==> (#[trigger] moved.indices[x]).number
                    == source.indices@[x].number
            &&& forall|x: int|
                0 <= x < moved.indices.len() && sectors_before(counts, f)
                    + source.indices@[x].position.frames() < 256 * 60 * 75 ==> (
                #[trigger] moved.indices[x]).position.frames() == sectors_before(counts, f)
                    + source.indices@[x].position.frames()
        }),
    decreases n,
{
    lemma_normalized_len(files, counts, n);
    lemma_normalized_len(files, counts, n - 1);
    lemma_normalized_len(files, counts, f);
    if f < n - 1 {
        law_merged_tracks_follow_each_other(files, counts, f, t, n - 1);
        assert(normalized(files, counts, n)[tracks_before(files, f) + t] == normalized(
            files,
            counts,
            n - 1,
        )[tracks_before(files, f) + t]);
    } else {
        let offset = sectors_before(counts, f);
        let source = files[f].tracks@[t]@;
        let moved = normalized(files, counts, n)[tracks_before(files, f) + t];
        assert(moved == shifted(source, offset));
        lemma_sectors_before_monotonic(counts, 0, f);
        assert forall|x: int|
            0 <= x < moved.indices.len() && offset + source.indices[x].position.frames() < 256 * 60
                * 75 implies (#[trigger] moved.indices[x]).position.frames() == offset
            + source.indices[x].position.frames() by {
            law_normalized_positions(source, offset, x);
        }
    }
}

// ---------------------------------------------------------------------------
// What is taken from a sector
// ---------------------------------------------------------------------------

/// The header of a sector is read as it is written: minute, second and frame in
/// decimal digits give the sector's number.
pub proof fn law_header_gives_the_number(raw: Seq<u8>, mode: u8, num: u32)
    requires
        raw.len() == 2352,
        reconstruction::opens_sector(raw, mode, num),
    ensures
        header_frames(raw) == num,
{
}

/// What is kept of a sector as its subheader is what rebuilding the sector puts
/// back there: bytes 16 to 23 in Mode 2, and the reserved bytes 2068 to 2075 in
/// Mode 1. Plain sectors of a Mode 2 gap and deviating ones of a Mode 1 gap are not
/// among these: of those the other eight bytes are kept.
pub proof fn law_kept_subheader_is_the_one_put_back(
    s: Seq<u8>,
    user: Seq<u8>,
    meta: Seq<u8>,
    sector_type: SectorType,
    num: u32,
    stored: Option<Seq<u8>>,
)
    requires
        sector_type is Mode1 || sector_type is Mode1Exception || sector_type is PregapMode1
            || sector_type is Mode2Form1 || sector_type is Mode2Form1Exception || sector_type
            is Mode2Form2 || sector_type is Mode2Form2Exception || sector_type
            is PregapMode1Exception || sector_type is PregapMode2 || sector_type
            is PregapMode2Exception,
        reconstruction::is_sector(s, user, meta, sector_type, num, stored),
    ensures
        sector_type !is PregapMode2 && sector_type !is PregapMode1Exception ==> subheader_of(
            sector_type,
            s,
        ) == meta,
        sector_type is PregapMode2 ==> subheader_of(sector_type, s) == s.subrange(2068, 2076),
        sector_type is PregapMode1Exception ==> subheader_of(sector_type, s) == s.subrange(16, 24),
{
    reconstruction::law_metadata_is_read_back(s, user, meta, sector_type, num, stored);
}

/// The deviating bytes of a content sector are found again, whatever its mode and
/// form, and no sector has any that was not found to deviate.
pub proof fn law_deviations_of_content_are_kept(
    coarse: Seq<SectorType>,
    subheaders: Seq<Seq<u8>>,
    stored: Seq<Seq<u8>>,
    reads: Seq<[u8; 2352]>,
    found: Seq<SectorAnalysis>,
    result: SectorMapResult,
    sector: int,
)
    requires
        coarse.len() <= u32::MAX,
        0 <= sector < coarse.len(),
        ({
            let end = mapped(
                start_state(coarse, subheaders, stored),
                reads,
                found,
                coarse.len() as int,
            );
            is_result_of(result, end) && end.stored.len() <= 4294967296
        }),
    ensures
        ({
            let end = mapped(
                start_state(coarse, subheaders, stored),
                reads,
                found,
                coarse.len() as int,
            );
            let looked_at = coarse[sector] is Mode1 || coarse[sector] is Mode2Form1
                || coarse[sector] is PregapMode1 || coarse[sector] is PregapMode2;
            let id = reconstruction::exception_at(result.exception_index@, sector);
            &&& looked_at && (found[sector].sector_type is Mode1Exception
                || found[sector].sector_type is Mode2Form1Exception || found[sector].sector_type
                is Mode2Form2Exception) && found[sector].exception_data is Some ==> id is Some
                && id->0 < end.stored.len() && end.stored[id->0 as int]
                == found[sector].exception_data->0@
            &&& !looked_at || found[sector].exception_data is None ==> id is None
        }),
{
    law_exceptions_are_found_again(coarse, subheaders, stored, reads, found, result, sector);
}

/// Of several index points with one number the first counts.
pub proof fn law_first_index_point_counts(indices: Seq<TrackIndex>, number: u8, j: int)
    requires
        0 <= j < indices.len(),
        indices[j].number == number,
        forall|i: int| 0 <= i < j ==> (#[trigger] indices[i]).number != number,
    ensures
        index_frames(indices, number) == Some(indices[j].position.frames()),
    decreases j,
{
    if j > 0 {
        let rest = indices.drop_first();
        assert forall|i: int| 0 <= i < j - 1 implies (#[trigger] rest[i]).number != number by {
            assert(rest[i] == indices[i + 1]);
        }
        law_first_index_point_counts(rest, number, j - 1);
    }
}

/// The tracks of a sheet of one or more files are laid out over the disc one file
/// behind the other: every index point of a file is at its place within the file,
/// counted on from the sectors of all files before.
pub proof fn law_files_make_up_the_disc(
    cue_sheet: CueSheet,
    counts: Seq<u32>,
    f: int,
    t: int,
    x: int,
)
    requires
        cue_sheet.files@.len() == counts.len(),
        0 <= f < counts.len(),
        0 <= t < cue_sheet.files@[f].tracks@.len(),
        0 <= x < cue_sheet.files@[f].tracks@[t].indices@.len(),
        sectors_before(counts, f) + cue_sheet.files@[f].tracks@[t].indices@[x].position.frames()
            < 256 * 60 * 75,
    ensures
        ({
            let files = cue_sheet.files@;
            let source = files[f].tracks@[t];
            let tracks = effective_tracks(cue_sheet, counts);
            let moved = tracks[tracks_before(files, f) + t];
            &&& tracks.len() == tracks_before(files, files.len() as int)
            &&& moved.number == source.number
            &&& moved.track_type == source.track_type
            &&& moved.indices.len() == source.indices@.len()
            &&& moved.indices[x].number == source.indices@[x].number
            &&& moved.indices[x].position.frames() == sectors_before(counts, f)
                + source.indices@[x].position.frames()
        }),
{
    let files = cue_sheet.files@;
    if files.len() > 1 {
        law_merged_tracks_follow_each_other(files, counts, f, t, files.len() as int);
        let moved = normalized(files, counts, files.len() as int)[tracks_before(files, f) + t];
        assert(moved.indices[x].number == files[f].tracks@[t].indices@[x].number);
    } else {
        assert(f == 0);
        assert(sectors_before(counts, 0) == 0);
        assert(tracks_before(files, 0) == 0);
        assert(tracks_before(files, 1) == files[0].tracks@.len());
    }
}

/// Whether runs of subheaders are as long as they can be: none is empty, they follow
/// each other, and two that touch have different subheaders.
pub open spec fn runs_are_longest(runs: Seq<SubHeaderEntry>) -> bool {
    &&& forall|k: int| 0 <= k < runs.len() ==> (#[trigger] runs[k]).count >= 1
    &&& forall|k: int, l: int|
        0 <= k && l == k + 1 && l < runs.len() ==> {
            let end = (#[trigger] runs[k]).start_lba + runs[k].count;
            end <= (#[trigger] runs[l]).start_lba && (end == runs[l].start_lba ==> runs[k].data_id
                != runs[l].data_id)
        }
}

/// Whether distances between header and position are noted only where they change:
/// the sectors ascend, and no distance stands next to itself.
pub open spec fn distances_change(lba_map: Seq<(u32, u32)>) -> bool {
    forall|k: int, l: int|
        0 <= k && l == k + 1 && l < lba_map.len() ==> (#[trigger] lba_map[k]).0 < (
        #[trigger] lba_map[l]).0 && lba_map[k].1 != lba_map[l].1
}

proof fn lemma_notes_are_short(
    start: MapState,
    reads: Seq<[u8; 2352]>,
    found: Seq<SectorAnalysis>,
    n: int,
)
    requires
        0 <= n <= start.sectors.len(),
        start.sectors.len() <= u32::MAX,
        start.subheader_index.len() == 0,
        start.open_run is None,
        start.lba_map.len() == 0,
        start.offset is None,
    ensures
        ({
            let state = mapped(start, reads, found, n);
            &&& runs_are_longest(all_runs(state))
            &&& open_run_before(state, n)
            &&& state.open_run is None ==> state.subheader_index.len() == 0
            &&& distances_change(state.lba_map)
            &&& state.lba_map.len() > 0 ==> state.lba_map.last().0 < n && state.offset == Some(
                state.lba_map.last().1,
            )
            &&& state.lba_map.len() == 0 ==> state.offset is None
        }),
    decreases n,
{
    if n > 0 {
        lemma_notes_are_short(start, reads, found, n - 1);
        let state = mapped(start, reads, found, n - 1);
        let next = mapped(start, reads, found, n);
        if is_data(start.sectors[n - 1]) {
            let before = all_runs(state);
            let after = all_runs(next);
            assert forall|k: int, l: int| 0 <= k && l == k + 1 && l < after.len() implies {
                let end = (#[trigger] after[k]).start_lba + after[k].count;
                end <= (#[trigger] after[l]).start_lba && (end == after[l].start_lba
                    ==> after[k].data_id != after[l].data_id)
            } by {
                if l < before.len() {
                    assert(before[k].start_lba + before[k].count <= before[l].start_lba);
                    assert(after[l].start_lba == before[l].start_lba);
                    assert(after[k] == before[k]);
                }
            }
            assert forall|k: int| 0 <= k < after.len() implies (#[trigger] after[k]).count
                >= 1 by {
                if k < before.len() {
                    assert(before[k].count >= 1);
                }
            }
            let a = state.lba_map;
            let b = next.lba_map;
            assert forall|k: int, l: int| 0 <= k && l == k + 1 && l < b.len() implies (
            #[trigger] b[k]).0 < (#[trigger] b[l]).0 && b[k].1 != b[l].1 by {
                if l < a.len() {
                    assert(a[k].0 < a[l].0 && a[k].1 != a[l].1);
                }
            }
        }
    }
}

/// A mapping notes down no more than it has to: sectors in a row with the same
/// subheader share one run, and a distance between header and position is noted
/// only where it changes.
pub proof fn law_mapping_notes_are_short(
    coarse: Seq<SectorType>,
    subheaders: Seq<Seq<u8>>,
    stored: Seq<Seq<u8>>,
    reads: Seq<[u8; 2352]>,
    found: Seq<SectorAnalysis>,
    result: SectorMapResult,
)
    requires
        coarse.len() <= u32::MAX,
        is_result_of(
            result,
            mapped(start_state(coarse, subheaders, stored), reads, found, coarse.len() as int),
        ),
    ensures
        runs_are_longest(result.subheader_index@),
        distances_change(result.lba_map@),
{
    lemma_notes_are_short(
        start_state(coarse, subheaders, stored),
        reads,
        found,
        coarse.len() as int,
    );
}

} // verus!
