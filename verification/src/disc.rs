//! The plain data that describes an optical disc: sector types, positions,
//! run-length encoded maps, CUE sheets and the manifest of an archived disc.

use vstd::prelude::*;

verus! {

/// Length in bytes of one raw sector.
pub const SECTOR_SIZE: usize = 2352;

/// Frames (sectors) in one second of disc time.
pub const FRAMES_PER_SECOND: u32 = 75;

/// Frames (sectors) in one minute of disc time.
pub const FRAMES_PER_MINUTE: u32 = 4500;

/// What a raw sector holds.
#[derive(Clone, Copy, Debug, PartialEq, Eq, Structural)]
pub enum SectorType {
    /// Not assigned to any track.
    Unmapped,
    Audio,
    Mode1,
    Mode2Form1,
    Mode2Form2,
    Mode1Exception,
    Mode2Form1Exception,
    Mode2Form2Exception,
    PregapAudio,
    PregapMode1,
    PregapMode2,
    PregapMode1Exception,
    PregapMode2Exception,
    ZeroedAudio,
    ZeroedMode1Data,
    ZeroedMode2Data,
}

impl SectorType {
    /// First byte of the user data within a raw sector.
    pub open spec fn user_start(self) -> int {
        match self {
            SectorType::Mode1 | SectorType::Mode1Exception | SectorType::PregapMode1
            | SectorType::PregapMode1Exception => 16,
            SectorType::Mode2Form1 | SectorType::Mode2Form1Exception | SectorType::PregapMode2
            | SectorType::PregapMode2Exception | SectorType::Mode2Form2
            | SectorType::Mode2Form2Exception => 24,
            _ => 0,
        }
    }

    /// Number of user data bytes within a raw sector; zero where the sector
    /// carries no user data.
    pub open spec fn user_len(self) -> int {
        match self {
            SectorType::Mode1 | SectorType::Mode1Exception | SectorType::PregapMode1
            | SectorType::PregapMode1Exception | SectorType::Mode2Form1
            | SectorType::Mode2Form1Exception | SectorType::PregapMode2
            | SectorType::PregapMode2Exception => 2048,
            SectorType::Mode2Form2 | SectorType::Mode2Form2Exception => 2324,
            SectorType::ZeroedMode1Data | SectorType::ZeroedMode2Data => 2352,
            _ => 0,
        }
    }

    /// Number of bytes stored for a sector whose non-user bytes deviate from
    /// what can be recomputed.
    pub open spec fn exception_len(self) -> int {
        match self {
            SectorType::Mode1Exception | SectorType::PregapMode1Exception
            | SectorType::Mode2Form1Exception | SectorType::PregapMode2Exception => 296,
            SectorType::Mode2Form2Exception => 20,
            _ => 0,
        }
    }

    /// Whether the sector is copied whole from the audio stream.
    pub open spec fn audio(self) -> bool {
        self is Audio || self is PregapAudio || self is ZeroedAudio
    }

    /// The range of user data bytes within a raw sector, if there is any.
    pub fn user_data_range(self) -> (range: Option<(usize, usize)>)
        ensures
            range is Some <==> self.user_len() > 0,
            range matches Some(r) ==> r.0 == self.user_start() && r.1 == self.user_start()
                + self.user_len(),
    {
        match self {
            SectorType::Mode1 | SectorType::Mode1Exception => Some((16, 2064)),
            SectorType::Mode2Form1 | SectorType::Mode2Form1Exception => Some((24, 2072)),
            SectorType::Mode2Form2 | SectorType::Mode2Form2Exception => Some((24, 2348)),
            SectorType::PregapMode1 | SectorType::PregapMode1Exception => Some((16, 2064)),
            SectorType::PregapMode2 | SectorType::PregapMode2Exception => Some((24, 2072)),
            SectorType::ZeroedMode1Data | SectorType::ZeroedMode2Data => Some((0, 2352)),
            _ => None,
        }
    }

    /// Number of user data bytes that the sector contributes to the data
    /// stream.
    pub fn data_size(self) -> (size: u16)
        ensures
            size == self.user_len(),
    {
        match self.user_data_range() {
            Some((start, end)) => (end - start) as u16,
            None => 0,
        }
    }

    /// Number of bytes that the exception store holds for the sector.
    pub fn excep_size(self) -> (size: usize)
        ensures
            size == self.exception_len(),
    {
        match self {
            SectorType::Mode1Exception | SectorType::PregapMode1Exception
            | SectorType::Mode2Form1Exception | SectorType::PregapMode2Exception => 296,
            SectorType::Mode2Form2Exception => 20,
            _ => 0,
        }
    }

    /// Whether the sector is copied whole from the audio stream.
    pub fn is_audio(self) -> (yes: bool)
        ensures
            yes == self.audio(),
    {
        matches!(self, SectorType::Audio | SectorType::PregapAudio | SectorType::ZeroedAudio)
    }

    /// Whether the sector lies in the gap before a track's content.
    pub open spec fn pregap(self) -> bool {
        self is PregapAudio || self is PregapMode1 || self is PregapMode2
            || self is PregapMode1Exception || self is PregapMode2Exception
    }

    /// Whether the sector lies in the gap before a track's content.
    pub fn is_pregap(self) -> (yes: bool)
        ensures
            yes == self.pregap(),
    {
        matches!(
            self,
            SectorType::PregapAudio | SectorType::PregapMode1 | SectorType::PregapMode2
            | SectorType::PregapMode1Exception | SectorType::PregapMode2Exception
        )
    }
}

/// A position on a disc in minutes, seconds and frames.
#[derive(Clone, Copy, Debug, PartialEq, Eq, Structural)]
pub struct MsfTime {
    pub minute: u8,
    pub second: u8,
    pub frame: u8,
}

impl MsfTime {
    /// The number of frames that the position stands for.
    pub open spec fn frames(self) -> int {
        self.minute * 4500 + self.second * 75 + self.frame
    }

    /// The position of a frame number. The minute counter is one byte wide and
    /// wraps around.
    pub open spec fn at(total: int) -> MsfTime {
        MsfTime {
            minute: ((total / 4500) % 256) as u8,
            second: ((total % 4500) / 75) as u8,
            frame: (total % 75) as u8,
        }
    }

    /// Counts the frames from the start of the disc.
    pub fn to_total_frames(&self) -> (total: u32)
        ensures
            total == self.frames(),
    {
        self.minute as u32 * FRAMES_PER_MINUTE + self.second as u32 * FRAMES_PER_SECOND
            + self.frame as u32
    }

    /// Splits a frame count into minutes, seconds and frames.
    pub fn from_total_frames(total: u32) -> (time: MsfTime)
        ensures
            time == MsfTime::at(total as int),
    {
        MsfTime {
            minute: (total / FRAMES_PER_MINUTE % 256) as u8,
            second: (total % FRAMES_PER_MINUTE / FRAMES_PER_SECOND) as u8,
            frame: (total % FRAMES_PER_SECOND) as u8,
        }
    }
}

/// Every frame number below the largest that a position can hold survives the
/// conversion to a position and back.
pub proof fn law_frames_to_position_and_back(total: int)
    requires
        0 <= total < 256 * 4500,
    ensures
        MsfTime::at(total).frames() == total,
{
    assert(total == (total / 4500) * 4500 + total % 4500);
    assert(total % 4500 == ((total % 4500) / 75) * 75 + (total % 4500) % 75);
    assert((total % 4500) % 75 == total % 75);
}

/// A position with in-range seconds and frames survives the conversion to a
/// frame number and back.
pub proof fn law_position_to_frames_and_back(time: MsfTime)
    requires
        time.second < 60,
        time.frame < 75,
    ensures
        MsfTime::at(time.frames()) == time,
{
    let total = time.frames();
    assert(total / 4500 == time.minute);
    assert(total % 4500 == time.second * 75 + time.frame);
    assert((total % 4500) / 75 == time.second);
    assert(total % 75 == time.frame);
}

/// The recording mode of a track.
#[derive(Clone, Copy, Debug, PartialEq, Eq, Structural)]
pub enum TrackType {
    Audio,
    Mode1_2352,
    Mode2_2352,
}

/// An index point of a track.
#[derive(Clone, Copy, Debug, PartialEq, Eq, Structural)]
pub struct TrackIndex {
    pub number: u8,
    pub position: MsfTime,
}

/// A track of a CUE sheet.
#[derive(Clone, Debug, PartialEq, Eq)]
pub struct Track {
    pub number: u8,
    pub track_type: TrackType,
    pub indices: Vec<TrackIndex>,
}

/// The content of a track.
pub struct TrackView {
    pub number: u8,
    pub track_type: TrackType,
    pub indices: Seq<TrackIndex>,
}

impl View for Track {
    type V = TrackView;

    open spec fn view(&self) -> TrackView {
        TrackView { number: self.number, track_type: self.track_type, indices: self.indices@ }
    }
}

/// The contents of a list of tracks.
pub open spec fn track_views(tracks: Seq<Track>) -> Seq<TrackView> {
    tracks.map_values(|t: Track| t@)
}

/// A file that a CUE sheet refers to.
#[derive(Clone, Debug, PartialEq, Eq)]
pub struct CueFile {
    pub name: String,
    pub tracks: Vec<Track>,
}

/// A parsed CUE sheet.
#[derive(Clone, Debug, PartialEq, Eq)]
pub struct CueSheet {
    pub source_filename: String,
    pub files: Vec<CueFile>,
}

/// A sector map with runs of equal sectors folded into `(count, type)` pairs.
#[derive(Clone, Debug, PartialEq, Eq)]
pub struct RleSectorMap {
    pub runs: Vec<(u32, SectorType)>,
}

/// The type of every sector of a disc.
#[derive(Clone, Debug, PartialEq, Eq)]
pub struct SectorMap {
    pub sectors: Vec<SectorType>,
}

/// A sector's type together with where its user data starts in the data
/// stream.
#[derive(Clone, Copy, Debug, PartialEq, Eq, Structural)]
pub struct DecodedSectorInfo {
    pub sector_type: SectorType,
    pub stream_offset: u64,
}

/// A run of sectors that share one subheader.
#[derive(Clone, Copy, Debug, PartialEq, Eq, Structural)]
pub struct SubHeaderEntry {
    pub start_lba: u32,
    pub count: u32,
    pub data_id: u16,
}

/// A run of audio sectors that is stored as one unit.
#[derive(Clone, Copy, Debug, PartialEq, Eq)]
pub struct ContentBlock<H> {
    pub start_sector: u32,
    pub sector_count: u32,
    pub content_hash: H,
    pub sector_type: SectorType,
}

/// A chunk of the data stream.
#[derive(Clone, Copy, Debug, PartialEq, Eq)]
pub struct DataChunkLayout<H> {
    pub hash: H,
}

/// All that is needed to put a disc together again from stored chunks.
#[derive(Clone, Debug, PartialEq, Eq)]
pub struct DiscManifest<H> {
    pub lba_map: Vec<(u32, u32)>,
    pub rle_sector_map: RleSectorMap,
    pub audio_block_map: Vec<ContentBlock<H>>,
    pub data_stream_layout: Vec<DataChunkLayout<H>>,
    pub subheader_index: Vec<SubHeaderEntry>,
    pub disc_exception_index: Vec<(u32, u32)>,
    pub integrity_hash: u64,
}

/// What the mapping of a disc yields.
#[derive(Clone, Debug, PartialEq, Eq)]
pub struct SectorMapResult {
    pub sector_map: SectorMap,
    pub exception_index: Vec<(u32, u32)>,
    pub subheader_index: Vec<SubHeaderEntry>,
    pub lba_map: Vec<(u32, u32)>,
}

/// The kinds of sectors whose deviations are stored.
#[derive(Clone, Copy, Debug, PartialEq, Eq, Structural)]
pub enum ExceptionType {
    /// Nothing is stored.
    Absent,
    Mode1,
    Mode2Form1,
    Mode2Form2,
}

/// The sectors that a list of runs stands for.
pub open spec fn expanded(runs: Seq<(u32, SectorType)>) -> Seq<SectorType>
    decreases runs.len(),
{
    if runs.len() == 0 {
        Seq::empty()
    } else {
        expanded(runs.drop_last()) + Seq::new(runs.last().0 as nat, |i: int| runs.last().1)
    }
}

/// Number of user data bytes in the first `n` of the given sectors.
pub open spec fn stream_len(sectors: Seq<SectorType>, n: int) -> int
    decreases n,
{
    if n <= 0 {
        0
    } else {
        stream_len(sectors, n - 1) + sectors[n - 1].user_len()
    }
}

/// User data before a sector is no more than user data before a later one.
pub proof fn lemma_stream_len_monotonic(sectors: Seq<SectorType>, m: int, n: int)
    requires
        0 <= m <= n,
    ensures
        0 <= stream_len(sectors, m) <= stream_len(sectors, n),
    decreases n,
{
    if m < n {
        lemma_stream_len_monotonic(sectors, m, n - 1);
    } else if m > 0 {
        lemma_stream_len_monotonic(sectors, m - 1, n - 1);
    }
}

/// User data before a sector depends on the sectors before it alone.
pub proof fn lemma_stream_len_prefix(a: Seq<SectorType>, b: Seq<SectorType>, n: int)
    requires
        0 <= n <= a.len(),
        n <= b.len(),
        forall|i: int| 0 <= i < n ==> a[i] == b[i],
    ensures
        stream_len(a, n) == stream_len(b, n),
    decreases n,
{
    if n > 0 {
        lemma_stream_len_prefix(a, b, n - 1);
    }
}

/// What a deviating sector is kept in makes up the whole sector: its user data, its
/// eight bytes of subheader or reserved bytes, and the bytes stored for it.
pub proof fn law_kept_parts_make_up_a_sector(sector_type: SectorType)
    ensures
        sector_type is Mode1Exception || sector_type is PregapMode1Exception || sector_type
            is Mode2Form1Exception || sector_type is PregapMode2Exception || sector_type
            is Mode2Form2Exception ==> sector_type.exception_len() > 0 && sector_type.user_len() + 8
            + sector_type.exception_len() == 2352,
        sector_type is Mode1 || sector_type is PregapMode1 || sector_type is Mode2Form1
            || sector_type is PregapMode2 || sector_type is Mode2Form2
            ==> sector_type.exception_len() == 0,
        sector_type is ZeroedMode1Data || sector_type is ZeroedMode2Data
            ==> sector_type.exception_len() == 0 && sector_type.user_start() == 0
            && sector_type.user_len() == 2352,
{
}

/// A deviating sector has its user data where the sector has it that it deviates
/// from, and a sector of a gap where the content behind the gap has it.
pub proof fn law_user_data_has_one_place_in_a_mode(sector_type: SectorType)
    ensures
        sector_type is Mode1 || sector_type is Mode1Exception || sector_type is PregapMode1
            || sector_type is PregapMode1Exception ==> sector_type.user_start() == 16
            && sector_type.user_start() + sector_type.user_len() == 2064,
        sector_type is Mode2Form1 || sector_type is Mode2Form1Exception || sector_type
            is PregapMode2 || sector_type is PregapMode2Exception ==> sector_type.user_start() == 24
            && sector_type.user_start() + sector_type.user_len() == 2072,
        sector_type is Mode2Form2 || sector_type is Mode2Form2Exception ==> sector_type.user_start()
            == 24 && sector_type.user_start() + sector_type.user_len() == 2348,
{
}

/// Every sector but an unmapped one comes from exactly one stream: audio, gaps of
/// audio and silence from the audio, all others from the user data.
pub proof fn law_sectors_come_from_one_stream(sector_type: SectorType)
    ensures
        sector_type is Audio || sector_type is PregapAudio || sector_type is ZeroedAudio
            ==> sector_type.audio() && sector_type.user_len() == 0,
        !(sector_type is Audio || sector_type is PregapAudio || sector_type is ZeroedAudio
            || sector_type is Unmapped) ==> !sector_type.audio() && sector_type.user_len() > 0,
        sector_type is Unmapped ==> !sector_type.audio() && sector_type.user_len() == 0,
        sector_type.pregap() <==> (sector_type is PregapAudio || sector_type is PregapMode1
            || sector_type is PregapMode2 || sector_type is PregapMode1Exception || sector_type
            is PregapMode2Exception),
{
}

} // verus!
