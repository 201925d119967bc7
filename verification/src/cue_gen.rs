//! Writing CUE sheets for restored discs.

use vstd::prelude::*;
use crate::blocks;
use crate::blocks::is_countable;
use crate::disc::{DiscManifest, MsfTime, SectorType};
use crate::reconstruction;
use crate::text;
use crate::text::padded_text;

verus! {

/// The error of formatting machinery. Writing to a string never gives one.
#[verifier::external_type_specification]
#[verifier::external_body]
pub struct ExFmtError(std::fmt::Error);

/// The mode of a track in a CUE sheet.
#[derive(Clone, Copy, Debug, PartialEq, Eq, Structural)]
pub enum TrackMode {
    Audio,
    Mode1,
    Mode2,
}

impl TrackMode {
    /// The mode of the track that a sector belongs to.
    pub open spec fn of(sector_type: SectorType) -> Option<TrackMode> {
        match sector_type {
            SectorType::Unmapped => None,
            SectorType::Audio | SectorType::PregapAudio | SectorType::ZeroedAudio => Some(
                TrackMode::Audio,
            ),
            SectorType::Mode1 | SectorType::Mode1Exception | SectorType::PregapMode1
            | SectorType::PregapMode1Exception | SectorType::ZeroedMode1Data => Some(
                TrackMode::Mode1,
            ),
            _ => Some(TrackMode::Mode2),
        }
    }

    /// What a CUE sheet calls the mode.
    pub open spec fn name(self) -> Seq<char> {
        match self {
            TrackMode::Audio => "AUDIO"@,
            TrackMode::Mode1 => "MODE1/2352"@,
            TrackMode::Mode2 => "MODE2/2352"@,
        }
    }

    /// The mode of the track that a sector belongs to.
    pub fn from_sector_type(sector_type: SectorType) -> (mode: Option<TrackMode>)
        ensures
            mode == TrackMode::of(sector_type),
    {
        match sector_type {
            SectorType::Unmapped => None,
            SectorType::Audio | SectorType::PregapAudio | SectorType::ZeroedAudio => Some(
                TrackMode::Audio,
            ),
            SectorType::Mode1 | SectorType::Mode1Exception | SectorType::PregapMode1
            | SectorType::PregapMode1Exception | SectorType::ZeroedMode1Data => Some(
                TrackMode::Mode1,
            ),
            _ => Some(TrackMode::Mode2),
        }
    }

    /// What a CUE sheet calls the mode.
    pub fn to_cue_type_string(self) -> (name: &'static str)
        ensures
            name@ == self.name(),
    {
        match self {
            TrackMode::Audio => "AUDIO",
            TrackMode::Mode1 => "MODE1/2352",
            TrackMode::Mode2 => "MODE2/2352",
        }
    }
}

/// A position as a CUE sheet writes it.
pub open spec fn time_digits(time: MsfTime) -> Seq<char> {
    text::padded(time.minute as nat).push(':') + text::padded(time.second as nat).push(':')
        + text::padded(time.frame as nat)
}

/// The line that opens a file.
pub open spec fn file_line(name: Seq<char>) -> Seq<char> {
    "FILE \""@ + name + "\" BINARY\n"@
}

/// The line that opens a track.
pub open spec fn track_line(number: int, mode: TrackMode) -> Seq<char> {
    "  TRACK "@ + text::padded(number as nat).push(' ') + mode.name().push('\n')
}

/// The line of an index point at a sector.
pub open spec fn index_line(number: int, sector: int) -> Seq<char> {
    "    INDEX "@ + text::padded(number as nat).push(' ') + time_digits(
        MsfTime::at(sector),
    ).push('\n')
}

/// How far the sheet has come: the track being written, its mode, and whether
/// the track's content is still to start.
pub struct CueState {
    pub track: int,
    pub mode: Option<TrackMode>,
    pub pending: bool,
}

/// Whether a run of sectors of the given mode opens a track: the first one, one
/// of another mode, and any gap do.
pub open spec fn opens_track(state: CueState, mode: TrackMode, gap: bool) -> bool {
    state.track == 0 || state.mode != Some(mode) || gap
}

/// The state after a run.
pub open spec fn after_run(state: CueState, sector_type: SectorType) -> CueState {
    match TrackMode::of(sector_type) {
        None => state,
        Some(mode) => if opens_track(state, mode, sector_type.pregap()) {
            CueState { track: state.track + 1, mode: Some(mode), pending: sector_type.pregap() }
        } else {
            CueState { pending: false, ..state }
        },
    }
}

/// What a run that starts at the given sector adds to the sheet.
pub open spec fn run_lines(state: CueState, sector_type: SectorType, sector: int) -> Seq<char> {
    match TrackMode::of(sector_type) {
        None => Seq::empty(),
        Some(mode) => if opens_track(state, mode, sector_type.pregap()) {
            track_line(state.track + 1, mode) + index_line(
                if sector_type.pregap() {
                    0
                } else {
                    1
                },
                sector,
            )
        } else if state.pending {
            index_line(1, sector)
        } else {
            Seq::empty()
        },
    }
}

/// The state before run `n`.
pub open spec fn cue_state(runs: Seq<(u32, SectorType)>, n: int) -> CueState
    decreases n,
{
    if n <= 0 {
        CueState { track: 0, mode: None, pending: false }
    } else {
        after_run(cue_state(runs, n - 1), runs[n - 1].1)
    }
}

/// The sheet of the first `n` runs.
pub open spec fn cue_text(name: Seq<char>, runs: Seq<(u32, SectorType)>, n: int) -> Seq<char>
    decreases n,
{
    if n <= 0 {
        file_line(name)
    } else {
        cue_text(name, runs, n - 1) + run_lines(
            cue_state(runs, n - 1),
            runs[n - 1].1,
            blocks::sectors_before(runs, n - 1),
        )
    }
}

/// Track numbers never go down.
pub proof fn lemma_tracks_grow(runs: Seq<(u32, SectorType)>, m: int, n: int)
    requires
        0 <= m <= n,
    ensures
        0 <= cue_state(runs, m).track <= cue_state(runs, n).track,
    decreases n,
{
    if m < n {
        lemma_tracks_grow(runs, m, n - 1);
    } else if m > 0 {
        lemma_tracks_grow(runs, m - 1, n - 1);
    }
}

/// Whether a CUE sheet can be written for a disc: its sectors can be numbered in
/// 32 bits and its tracks in eight.
pub fn has_cue_sheet<H>(manifest: &DiscManifest<H>) -> (b: bool)
    ensures
        b == (blocks::countable(manifest.rle_sector_map.runs@) && cue_state(
            manifest.rle_sector_map.runs@,
            manifest.rle_sector_map.runs@.len() as int,
        ).track <= u8::MAX),
{
    let ghost runs = manifest.rle_sector_map.runs@;
    let mut track: u8 = 0;
    let mut last: Option<TrackMode> = None;
    let mut n: usize = 0;
    while n < manifest.rle_sector_map.runs.len()
        invariant
            runs == manifest.rle_sector_map.runs@,
            n <= runs.len(),
            cue_state(runs, n as int).track == track,
            cue_state(runs, n as int).mode == last,
        decreases runs.len() - n,
    {
        proof {
            lemma_tracks_grow(runs, n + 1, runs.len() as int);
        }
        let sector_type = manifest.rle_sector_map.runs[n].1;
        if let Some(mode) = TrackMode::from_sector_type(sector_type) {
            let mode_changed = match last {
                Some(last) => last != mode,
                None => true,
            };
            if track == 0 || mode_changed || sector_type.is_pregap() {
                if track == 255 {
                    return false;
                }
                track = track + 1;
                last = Some(mode);
            }
        }
        n += 1;
    }
    is_countable(&manifest.rle_sector_map)
}

fn push_index(output: &mut String, number: u8, sector: u32)
    ensures
        final(output)@ == old(output)@ + index_line(number as int, sector as int),
{
    let ghost before = output@;
    let time = MsfTime::from_total_frames(sector);
    output.push_str("    INDEX ");
    output.push_str(padded_text(number).as_str());
    output.push(' ');
    output.push_str(padded_text(time.minute).as_str());
    output.push(':');
    output.push_str(padded_text(time.second).as_str());
    output.push(':');
    output.push_str(padded_text(time.frame).as_str());
    output.push('\n');
    assert(output@ =~= before + index_line(number as int, sector as int));
}

fn push_track(output: &mut String, number: u8, mode: TrackMode)
    ensures
        final(output)@ == old(output)@ + track_line(number as int, mode),
{
    let ghost before = output@;
    output.push_str("  TRACK ");
    output.push_str(padded_text(number).as_str());
    output.push(' ');
    output.push_str(mode.to_cue_type_string());
    output.push('\n');
    assert(output@ =~= before + track_line(number as int, mode));
}

/// Writes the CUE sheet of a disc whose image is one file.
pub fn generate_cue_string<H>(manifest: &DiscManifest<H>, bin_filename: &str) -> (r: Result<
    String,
    std::fmt::Error,
>)
    requires
        blocks::countable(manifest.rle_sector_map.runs@),
        cue_state(
            manifest.rle_sector_map.runs@,
            manifest.rle_sector_map.runs@.len() as int,
        ).track <= u8::MAX,
    ensures
        r matches Ok(sheet) && sheet@ == cue_text(
            bin_filename@,
            manifest.rle_sector_map.runs@,
            manifest.rle_sector_map.runs@.len() as int,
        ),
{
    let ghost runs = manifest.rle_sector_map.runs@;
    let mut output = String::new();
    output.push_str("FILE \"");
    output.push_str(bin_filename);
    output.push_str("\" BINARY\n");
    assert(output@ =~= file_line(bin_filename@));
    let mut current_frame_count: u32 = 0;
    let mut current_track_number: u8 = 0;
    let mut last_track_mode: Option<TrackMode> = None;
    let mut pending_index_01 = false;
    let mut n: usize = 0;
    while n < manifest.rle_sector_map.runs.len()
        invariant
            runs == manifest.rle_sector_map.runs@,
            n <= runs.len(),
            blocks::countable(runs),
            cue_state(runs, runs.len() as int).track <= u8::MAX,
            current_frame_count == blocks::sectors_before(runs, n as int),
            cue_state(runs, n as int) == (CueState {
                track: current_track_number as int,
                mode: last_track_mode,
                pending: pending_index_01,
            }),
            output@ == cue_text(bin_filename@, runs, n as int),
        decreases runs.len() - n,
    {
        proof {
            blocks::lemma_sectors_before_grow(runs, n + 1, runs.len() as int);
            lemma_tracks_grow(runs, n + 1, runs.len() as int);
        }
        let ghost before = output@;
        let (run_length, sector_type) = manifest.rle_sector_map.runs[n];
        let is_explicit_pregap = sector_type.is_pregap();
        if let Some(mode) = TrackMode::from_sector_type(sector_type) {
            let mode_changed = match last_track_mode {
                Some(last) => last != mode,
                None => true,
            };
            if current_track_number == 0 || mode_changed || is_explicit_pregap {
                current_track_number = current_track_number + 1;
                last_track_mode = Some(mode);
                push_track(&mut output, current_track_number, mode);
                let index: u8 = if is_explicit_pregap {
                    0
                } else {
                    1
                };
                push_index(&mut output, index, current_frame_count);
                pending_index_01 = is_explicit_pregap;
            } else if pending_index_01 {
                push_index(&mut output, 1, current_frame_count);
                pending_index_01 = false;
            }
        }
        assert(output@ =~= cue_text(bin_filename@, runs, n + 1));
        current_frame_count = current_frame_count + run_length;
        n += 1;
    }
    Ok(output)
}

/// A gap and the content of the same mode that follows it make up one track: the
/// gap opens the track with index 0, and the content adds index 1 to it.
pub proof fn law_gap_and_content_share_a_track(runs: Seq<(u32, SectorType)>, n: int)
    requires
        0 <= n,
        n + 1 < runs.len(),
        TrackMode::of(runs[n].1) is Some,
        TrackMode::of(runs[n + 1].1) == TrackMode::of(runs[n].1),
        runs[n].1.pregap(),
        !runs[n + 1].1.pregap(),
    ensures
        run_lines(cue_state(runs, n), runs[n].1, blocks::sectors_before(runs, n)) == track_line(
            cue_state(runs, n).track + 1,
            TrackMode::of(runs[n].1)->0,
        ) + index_line(0, blocks::sectors_before(runs, n)),
        run_lines(
            cue_state(runs, n + 1),
            runs[n + 1].1,
            blocks::sectors_before(runs, n + 1),
        ) == index_line(1, blocks::sectors_before(runs, n) + runs[n].0),
        cue_state(runs, n + 2).track == cue_state(runs, n).track + 1,
{
    lemma_tracks_grow(runs, 0, n);
    assert(cue_state(runs, n + 1) == after_run(cue_state(runs, n), runs[n].1));
    assert(cue_state(runs, n + 2) == after_run(cue_state(runs, n + 1), runs[n + 1].1));
}

/// The mode of the track that a sector is listed under is the mode of the sector.
/// Rebuilt sectors that state mode 1 go under MODE1/2352 and those that state mode
/// 2, of either form, under MODE2/2352. Deviating and zeroed sectors go where the
/// sectors go that they deviate from, and audio goes under AUDIO.
pub proof fn law_sectors_keep_their_mode(
    s: Seq<u8>,
    user: Seq<u8>,
    meta: Seq<u8>,
    sector_type: SectorType,
    num: u32,
    stored: Option<Seq<u8>>,
)
    requires
        num < 100 * 60 * 75,
        reconstruction::is_sector(s, user, meta, sector_type, num, stored),
    ensures
        sector_type is Mode1 || sector_type is PregapMode1 || sector_type is Mode2Form1
            || sector_type is Mode2Form2 || sector_type is PregapMode2 ==> {
            &&& s[15] == 1 || s[15] == 2
            &&& s[15] == 1 ==> TrackMode::of(sector_type) is Some && TrackMode::of(sector_type)->0.name()
                == "MODE1/2352"@
            &&& s[15] == 2 ==> TrackMode::of(sector_type) is Some && TrackMode::of(sector_type)->0.name()
                == "MODE2/2352"@
        },
        sector_type is Mode1Exception || sector_type is PregapMode1Exception || sector_type
            is ZeroedMode1Data ==> TrackMode::of(sector_type) == TrackMode::of(SectorType::Mode1),
        sector_type is Mode2Form1Exception || sector_type is PregapMode2Exception || sector_type
            is ZeroedMode2Data ==> TrackMode::of(sector_type) == TrackMode::of(
            SectorType::Mode2Form1,
        ),
        sector_type is Mode2Form2Exception ==> TrackMode::of(sector_type) == TrackMode::of(
            SectorType::Mode2Form2,
        ),
        sector_type is Audio || sector_type is PregapAudio || sector_type is ZeroedAudio
            ==> TrackMode::of(sector_type) is Some && TrackMode::of(sector_type)->0.name() == "AUDIO"@,
{
    reconstruction::law_rebuilt_sector_states_its_number(s, user, meta, sector_type, num, stored);
}

/// Sectors of no track leave the sheet as it is.
pub proof fn law_unmapped_sectors_are_not_listed(state: CueState, sector: int)
    ensures
        after_run(state, SectorType::Unmapped) == state,
        run_lines(state, SectorType::Unmapped, sector) == Seq::<char>::empty(),
{
}

/// A run of the mode of the track being written that is no gap adds no track,
/// however often the sectors alternate between the types of one mode.
pub proof fn law_like_runs_share_a_track(runs: Seq<(u32, SectorType)>, n: int)
    requires
        0 <= n < runs.len(),
        cue_state(runs, n).track > 0,
        TrackMode::of(runs[n].1) == cue_state(runs, n).mode,
        !(runs[n].1 is PregapAudio || runs[n].1 is PregapMode1 || runs[n].1 is PregapMode2
            || runs[n].1 is PregapMode1Exception || runs[n].1 is PregapMode2Exception),
    ensures
        cue_state(runs, n + 1).track == cue_state(runs, n).track,
        cue_state(runs, n + 1).mode == cue_state(runs, n).mode,
{
}

proof fn lemma_mode2_disc(name: Seq<char>, runs: Seq<(u32, SectorType)>, n: int)
    requires
        1 <= n <= runs.len(),
        forall|i: int|
            0 <= i < n ==> ((#[trigger] runs[i]).1 is Mode2Form1 || runs[i].1 is Mode2Form2
                || runs[i].1 is Mode2Form1Exception || runs[i].1 is Mode2Form2Exception
                || runs[i].1 is ZeroedMode2Data),
    ensures
        cue_state(runs, n) == (CueState { track: 1, mode: Some(TrackMode::Mode2), pending: false }),
        cue_text(name, runs, n) == "FILE \""@ + name + "\" BINARY\n"@ + (
        "  TRACK 01 MODE2/2352\n"@ + "    INDEX 01 00:00:00\n"@),
    decreases n,
{
    assert(cue_state(runs, 0) == (CueState { track: 0, mode: None, pending: false }));
    assert(cue_text(name, runs, 0) == file_line(name));
    if n == 1 {
        let first = runs[0].1;
        assert(cue_state(runs, 1) == after_run(cue_state(runs, 0), first));
        text::law_small_numbers_have_two_digits(1);
        text::law_small_numbers_have_two_digits(0);
        assert(MsfTime::at(0) == (MsfTime { minute: 0, second: 0, frame: 0 }));
        assert(blocks::sectors_before(runs, 0) == 0);
        reveal_strlit("  TRACK 01 MODE2/2352\n");
        reveal_strlit("    INDEX 01 00:00:00\n");
        reveal_strlit("  TRACK ");
        reveal_strlit("    INDEX ");
        reveal_strlit("MODE2/2352");
        assert(track_line(1, TrackMode::Mode2) =~= "  TRACK 01 MODE2/2352\n"@);
        assert(index_line(1, 0) =~= "    INDEX 01 00:00:00\n"@);
        assert(cue_text(name, runs, 1) == cue_text(name, runs, 0) + run_lines(
            cue_state(runs, 0),
            first,
            0,
        ));
    } else {
        lemma_mode2_disc(name, runs, n - 1);
        let last = runs[n - 1].1;
        assert(!last.pregap() && TrackMode::of(last) == Some(TrackMode::Mode2));
        assert(cue_text(name, runs, n) =~= cue_text(name, runs, n - 1));
    }
}

/// A disc of Mode 2 sectors alone, of whatever forms, has one track: its sheet is
/// one file with one track in that mode that starts at the first sector.
pub proof fn law_mode2_disc_has_one_track(name: Seq<char>, runs: Seq<(u32, SectorType)>, n: int)
    requires
        1 <= n <= runs.len(),
        forall|i: int|
            0 <= i < n ==> ((#[trigger] runs[i]).1 is Mode2Form1 || runs[i].1 is Mode2Form2
                || runs[i].1 is Mode2Form1Exception || runs[i].1 is Mode2Form2Exception
                || runs[i].1 is ZeroedMode2Data),
    ensures
        cue_state(runs, n).track == 1,
        cue_text(name, runs, n) == "FILE \""@ + name + "\" BINARY\n"@ + (
        "  TRACK 01 MODE2/2352\n"@ + "    INDEX 01 00:00:00\n"@),
{
    lemma_mode2_disc(name, runs, n);
}

/// A run of another mode than the track being written always opens a track,
/// numbered one up.
pub proof fn law_mode_change_opens_a_track(runs: Seq<(u32, SectorType)>, n: int)
    requires
        0 <= n < runs.len(),
        TrackMode::of(runs[n].1) is Some,
        TrackMode::of(runs[n].1) != cue_state(runs, n).mode,
    ensures
        cue_state(runs, n + 1).track == cue_state(runs, n).track + 1,
        cue_state(runs, n + 1).mode == TrackMode::of(runs[n].1),
{
}

} // verus!
