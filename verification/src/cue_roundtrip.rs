//! CUE sheets that were written, read back.

use vstd::prelude::*;
use crate::blocks;
use crate::cue_gen;
use crate::cue_gen::{CueState, TrackMode};
use crate::cue_parser;
use crate::cue_parser::{CueFault, CueLineView, CueParse, FileView};
use crate::disc;
use crate::disc::{MsfTime, SectorType, TrackIndex, TrackType, TrackView};
use crate::text;

verus! {

// ---------------------------------------------------------------------------
// What a written sheet describes
// ---------------------------------------------------------------------------

/// The track type that a mode stands for.
pub open spec fn type_of_mode(mode: TrackMode) -> TrackType {
    match mode {
        TrackMode::Audio => TrackType::Audio,
        TrackMode::Mode1 => TrackType::Mode1_2352,
        TrackMode::Mode2 => TrackType::Mode2_2352,
    }
}

/// An index point at a sector.
pub open spec fn index_at(number: int, sector: int) -> TrackIndex {
    TrackIndex { number: number as u8, position: MsfTime::at(sector) }
}

/// The tracks with a run that starts at the given sector: it opens a track, starts
/// the content of the last one, or goes on with it.
pub open spec fn with_run(
    tracks: Seq<TrackView>,
    state: CueState,
    sector_type: SectorType,
    sector: int,
) -> Seq<TrackView> {
    match TrackMode::of(sector_type) {
        None => tracks,
        Some(mode) => if cue_gen::opens_track(state, mode, sector_type.pregap()) {
            tracks.push(
                TrackView {
                    number: (state.track + 1) as u8,
                    track_type: type_of_mode(mode),
                    indices: seq![
                        index_at(
                            if sector_type.pregap() {
                                0
                            } else {
                                1
                            },
                            sector,
                        ),
                    ],
                },
            )
        } else if state.pending {
            tracks.drop_last().push(
                TrackView {
                    number: tracks.last().number,
                    track_type: tracks.last().track_type,
                    indices: tracks.last().indices.push(index_at(1, sector)),
                },
            )
        } else {
            tracks
        },
    }
}

/// The tracks of the first `n` runs.
pub open spec fn described(runs: Seq<(u32, SectorType)>, n: int) -> Seq<TrackView>
    decreases n,
{
    if n <= 0 {
        Seq::empty()
    } else {
        with_run(
            described(runs, n - 1),
            cue_gen::cue_state(runs, n - 1),
            runs[n - 1].1,
            blocks::sectors_before(runs, n - 1),
        )
    }
}

// ---------------------------------------------------------------------------
// The lines of a written sheet
// ---------------------------------------------------------------------------

/// The line of an index point at a sector.
pub open spec fn index_view(number: int, sector: int) -> CueLineView {
    let time = MsfTime::at(sector);
    CueLineView::Index {
        number: text::padded(number as nat),
        minute: text::padded(time.minute as nat),
        second: text::padded(time.second as nat),
        frame: text::padded(time.frame as nat),
    }
}

/// The line that opens a track.
pub open spec fn track_view(number: int, mode: TrackMode) -> CueLineView {
    CueLineView::Track { number: text::padded(number as nat), kind: mode.name() }
}

/// The lines of a run that starts at the given sector.
pub open spec fn run_views(state: CueState, sector_type: SectorType, sector: int) -> Seq<
    CueLineView,
> {
    match TrackMode::of(sector_type) {
        None => Seq::empty(),
        Some(mode) => if cue_gen::opens_track(state, mode, sector_type.pregap()) {
            seq![
                track_view(state.track + 1, mode),
                index_view(
                    if sector_type.pregap() {
                        0
                    } else {
                        1
                    },
                    sector,
                ),
            ]
        } else if state.pending {
            seq![index_view(1, sector)]
        } else {
            Seq::empty()
        },
    }
}

/// The lines of the first `n` runs.
pub open spec fn sheet_views(name: Seq<char>, runs: Seq<(u32, SectorType)>, n: int) -> Seq<
    CueLineView,
>
    decreases n,
{
    if n <= 0 {
        seq![CueLineView::File { name, kind: "BINARY"@ }]
    } else {
        sheet_views(name, runs, n - 1) + run_views(
            cue_gen::cue_state(runs, n - 1),
            runs[n - 1].1,
            blocks::sectors_before(runs, n - 1),
        )
    }
}

/// A line as it is written, with its indentation.
pub open spec fn raw_line(line: CueLineView) -> Seq<char> {
    match line {
        CueLineView::Index { number, minute, second, frame } => "    "@ + cue_parser::index_text(
            number,
            minute,
            second,
            frame,
        ),
        CueLineView::Track { number, kind } => "  "@ + cue_parser::track_text(number, kind),
        CueLineView::File { name, kind } => cue_parser::file_text(name, kind),
        _ => Seq::empty(),
    }
}

/// Lines as they are written.
pub open spec fn raw_lines(lines: Seq<CueLineView>) -> Seq<Seq<char>> {
    lines.map_values(|line: CueLineView| raw_line(line))
}

/// What the first `n` lines make of a sheet when each is read as it was meant.
pub open spec fn views_outcome(lines: Seq<CueLineView>, n: int) -> Result<CueParse, CueFault>
    decreases n,
{
    if n <= 0 {
        Ok(CueParse::start())
    } else {
        match views_outcome(lines, n - 1) {
            Err(fault) => Err(fault),
            Ok(state) => cue_parser::line_outcome(state, lines[n - 1], lines[n - 1].kind_word()),
        }
    }
}

/// How far a sheet with one file has come: the last track is open.
pub open spec fn parsed(name: Seq<char>, tracks: Seq<TrackView>) -> CueParse {
    CueParse {
        files: Seq::empty(),
        file: Some(
            FileView {
                name,
                tracks: if tracks.len() == 0 {
                    tracks
                } else {
                    tracks.drop_last()
                },
            },
        ),
        track: if tracks.len() == 0 {
            None
        } else {
            Some(tracks.last())
        },
    }
}

proof fn lemma_views_prefix(a: Seq<CueLineView>, b: Seq<CueLineView>, n: int)
    requires
        n <= a.len(),
        n <= b.len(),
        forall|i: int| 0 <= i < n ==> a[i] == b[i],
    ensures
        views_outcome(a, n) == views_outcome(b, n),
    decreases n,
{
    if n > 0 {
        lemma_views_prefix(a, b, n - 1);
        assert(a[n - 1] == b[n - 1]);
    }
}

/// The names of the modes are those of the track types.
proof fn lemma_mode_names(mode: TrackMode)
    ensures
        cue_parser::track_type_of(mode.name()) == Some(type_of_mode(mode)),
{
    reveal_strlit("AUDIO");
    reveal_strlit("MODE1/2352");
    reveal_strlit("MODE2/2352");
    assert("AUDIO"@.len() == 5);
    assert("MODE1/2352"@.len() == 10);
    assert("MODE1/2352"@[4] == '1');
    assert("MODE2/2352"@[4] == '2');
}

/// An index point at a sector is read as it was meant.
proof fn lemma_index_line(state: CueParse, number: int, sector: int, upper: Seq<char>)
    requires
        state.track is Some,
        0 <= number <= 255,
        0 <= sector,
    ensures
        cue_parser::line_outcome(state, index_view(number, sector), upper) == Ok::<
            CueParse,
            CueFault,
        >(
            CueParse {
                files: state.files,
                file: state.file,
                track: Some(
                    TrackView {
                        number: state.track->0.number,
                        track_type: state.track->0.track_type,
                        indices: state.track->0.indices.push(index_at(number, sector)),
                    },
                ),
            },
        ),
{
    let time = MsfTime::at(sector);
    text::law_number_is_read_back(number as u8);
    assert((sector % 4500) / 75 < 60);
    cue_parser::law_position_is_read_back(time);
}

/// A line that opens a track is read as it was meant.
proof fn lemma_track_line(name: Seq<char>, tracks: Seq<TrackView>, number: int, mode: TrackMode)
    requires
        0 <= number <= 255,
    ensures
        ({
            let view = track_view(number, mode);
            cue_parser::line_outcome(parsed(name, tracks), view, view.kind_word()) == Ok::<
                CueParse,
                CueFault,
            >(
                CueParse {
                    files: Seq::empty(),
                    file: Some(FileView { name, tracks }),
                    track: Some(
                        TrackView {
                            number: number as u8,
                            track_type: type_of_mode(mode),
                            indices: Seq::empty(),
                        },
                    ),
                },
            )
        }),
{
    text::law_number_is_read_back(number as u8);
    lemma_mode_names(mode);
    if tracks.len() > 0 {
        assert(tracks.drop_last().push(tracks.last()) =~= tracks);
    }
}

/// Read as they were meant, the lines of a sheet give the tracks that it
/// describes.
proof fn lemma_views(name: Seq<char>, runs: Seq<(u32, SectorType)>, n: int)
    requires
        0 <= n <= runs.len(),
        cue_gen::cue_state(runs, n).track <= 255,
    ensures
        views_outcome(sheet_views(name, runs, n), sheet_views(name, runs, n).len() as int) == Ok::<
            CueParse,
            CueFault,
        >(parsed(name, described(runs, n))),
        described(runs, n).len() == cue_gen::cue_state(runs, n).track,
        cue_gen::cue_state(runs, n).pending ==> described(runs, n).len() > 0,
    decreases n,
{
    let views = sheet_views(name, runs, n);
    let tracks = described(runs, n);
    if n == 0 {
        assert(views_outcome(views, 0) == Ok::<CueParse, CueFault>(CueParse::start()));
        assert(CueParse::start().close_file().files =~= Seq::empty());
        assert(views[0].kind_word() == "BINARY"@);
        assert(tracks =~= Seq::empty());
    } else {
        cue_gen::lemma_tracks_grow(runs, n - 1, n);
        blocks::lemma_sectors_before_grow(runs, 0, n - 1);
        lemma_views(name, runs, n - 1);
        let state = cue_gen::cue_state(runs, n - 1);
        let sector_type = runs[n - 1].1;
        let sector = blocks::sectors_before(runs, n - 1);
        let before = sheet_views(name, runs, n - 1);
        let fewer = described(runs, n - 1);
        let k = before.len() as int;
        lemma_views_prefix(views, before, k);
        match TrackMode::of(sector_type) {
            None => {
                assert(views =~= before);
            },
            Some(mode) => if cue_gen::opens_track(state, mode, sector_type.pregap()) {
                let number: int = if sector_type.pregap() {
                    0
                } else {
                    1
                };
                lemma_track_line(name, fewer, state.track + 1, mode);
                assert(views[k] == track_view(state.track + 1, mode));
                let opened = views_outcome(views, k + 1)->Ok_0;
                assert(views[k + 1] == index_view(number, sector));
                lemma_index_line(opened, number, sector, views[k + 1].kind_word());
                assert(views.len() == k + 2);
                assert(tracks.drop_last() =~= fewer);
                assert(Seq::<TrackIndex>::empty().push(index_at(number, sector)) =~= seq![
                    index_at(number, sector),
                ]);
                assert(tracks.last().indices =~= opened.track->0.indices.push(
                    index_at(number, sector),
                ));
            } else if state.pending {
                assert(views[k] == index_view(1, sector));
                lemma_index_line(parsed(name, fewer), 1, sector, views[k].kind_word());
                assert(views.len() == k + 1);
                assert(tracks.drop_last() =~= fewer.drop_last());
            } else {
                assert(views =~= before);
            },
        }
    }
}

// ---------------------------------------------------------------------------
// From the text to its lines
// ---------------------------------------------------------------------------

/// Whether a line is one that a sheet is written with. An index point has two
/// digits for each part of its position.
pub open spec fn is_plain(line: CueLineView) -> bool {
    match line {
        CueLineView::Index { number, minute, second, frame } => {
            &&& cue_parser::is_number(number)
            &&& cue_parser::is_number(minute)
            &&& minute.len() == 2
            &&& cue_parser::is_number(second)
            &&& second.len() == 2
            &&& cue_parser::is_number(frame)
            &&& frame.len() == 2
        },
        CueLineView::Track { number, kind } => cue_parser::is_number(number) && exists|
            mode: TrackMode,
        | kind == #[trigger] mode.name(),
        CueLineView::File { name, kind } => {
            &&& name.len() > 0
            &&& !name.contains('"')
            &&& !name.contains('\n')
            &&& kind == "BINARY"@
        },
        _ => false,
    }
}

proof fn lemma_concat_lacks(a: Seq<char>, b: Seq<char>, c: char)
    requires
        !a.contains(c),
        !b.contains(c),
    ensures
        !(a + b).contains(c),
{
    if (a + b).contains(c) {
        let i = choose|i: int| 0 <= i < (a + b).len() && (a + b)[i] == c;
        if i < a.len() {
            assert(a[i] == c);
        } else {
            assert(b[i - a.len()] == c);
        }
    }
}

/// Digits hold no other character.
proof fn lemma_number_lacks(word: Seq<char>, c: char)
    requires
        cue_parser::is_number(word),
        !text::is_digit(c),
    ensures
        !word.contains(c),
{
    if word.contains(c) {
        let i = choose|i: int| 0 <= i < word.len() && word[i] == c;
        assert(text::is_digit(word[i]));
    }
}

/// The names of the modes are in capital letters, digits and slashes, and hold
/// neither an `N` nor a line feed.
proof fn lemma_mode_letters(mode: TrackMode)
    ensures
        cue_parser::is_kind(mode.name()),
        !mode.name().contains('N'),
        !mode.name().contains('\n'),
        mode.name().last() != '\r',
        !text::is_white(mode.name().last()),
{
    reveal_strlit("AUDIO");
    reveal_strlit("MODE1/2352");
    reveal_strlit("MODE2/2352");
}

/// Words in capital letters, digits and slashes are in upper case.
proof fn lemma_kind_is_upper(word: Seq<char>, upper: Seq<char>)
    requires
        cue_parser::is_kind(word),
        cue_parser::raised(word, upper),
    ensures
        upper == word,
{
    assert forall|i: int| 0 <= i < word.len() implies (#[trigger] word[i]) as int <= 127
        && cue_parser::ascii_upper(word[i]) == word[i] by {}
    assert(word.map_values(|c: char| cue_parser::ascii_upper(c)) =~= word);
}

/// A line as it is written is one line of text.
proof fn lemma_raw_line(line: CueLineView)
    requires
        is_plain(line),
    ensures
        !raw_line(line).contains('\n'),
        text::without_return(raw_line(line)) == raw_line(line),
        text::lines(raw_line(line).push('\n')) == seq![raw_line(line)],
{
    match line {
        CueLineView::Index { number, minute, second, frame } => {
            reveal_strlit("    ");
            reveal_strlit("INDEX ");
            lemma_number_lacks(number, '\n');
            lemma_number_lacks(minute, '\n');
            lemma_number_lacks(second, '\n');
            lemma_number_lacks(frame, '\n');
            let a = "INDEX "@ + number.push(' ');
            let b = a + minute.push(':');
            let c = b + second.push(':');
            lemma_push_lacks(number, ' ', '\n');
            lemma_push_lacks(minute, ':', '\n');
            lemma_push_lacks(second, ':', '\n');
            lemma_concat_lacks("INDEX "@, number.push(' '), '\n');
            lemma_concat_lacks(a, minute.push(':'), '\n');
            lemma_concat_lacks(b, second.push(':'), '\n');
            lemma_concat_lacks(c, frame, '\n');
            lemma_concat_lacks("    "@, c + frame, '\n');
            assert(raw_line(line).last() == frame.last());
            assert(text::is_digit(frame[frame.len() - 1]));
        },
        CueLineView::Track { number, kind } => {
            let mode = choose|mode: TrackMode| kind == #[trigger] mode.name();
            reveal_strlit("  ");
            reveal_strlit("TRACK ");
            lemma_mode_letters(mode);
            lemma_number_lacks(number, '\n');
            let a = "TRACK "@ + number.push(' ');
            lemma_push_lacks(number, ' ', '\n');
            lemma_concat_lacks("TRACK "@, number.push(' '), '\n');
            lemma_concat_lacks(a, kind, '\n');
            lemma_concat_lacks("  "@, a + kind, '\n');
            assert(raw_line(line).last() == kind.last());
        },
        CueLineView::File { name, kind } => {
            reveal_strlit("FILE \"");
            reveal_strlit("\" ");
            reveal_strlit("BINARY");
            let a = "FILE \""@ + name;
            let b = a + "\" "@;
            lemma_concat_lacks("FILE \""@, name, '\n');
            lemma_concat_lacks(a, "\" "@, '\n');
            lemma_concat_lacks(b, kind, '\n');
            assert(raw_line(line).last() == kind.last());
            assert(kind.last() == 'Y');
        },
        _ => {},
    }
    text::lemma_one_line(raw_line(line));
}

proof fn lemma_push_lacks(word: Seq<char>, last: char, c: char)
    requires
        !word.contains(c),
        last != c,
    ensures
        !word.push(last).contains(c),
{
    if word.push(last).contains(c) {
        let i = choose|i: int| 0 <= i < word.push(last).len() && word.push(last)[i] == c;
        assert(word[i] == c);
    }
}

/// Whether every index point of a sheet is written with a minute of two digits.
pub open spec fn minutes_fit(runs: Seq<(u32, SectorType)>, n: int) -> bool {
    forall|i: int|
        0 <= i < n && (#[trigger] run_views(
            cue_gen::cue_state(runs, i),
            runs[i].1,
            blocks::sectors_before(runs, i),
        )).len() > 0 ==> MsfTime::at(blocks::sectors_before(runs, i)).minute <= 99
}

/// Whether all lines are plain.
pub open spec fn all_plain(lines: Seq<CueLineView>) -> bool {
    forall|i: int| 0 <= i < lines.len() ==> is_plain(#[trigger] lines[i])
}

proof fn lemma_index_is_plain(number: int, sector: int)
    requires
        0 <= number,
        0 <= sector,
        MsfTime::at(sector).minute <= 99,
    ensures
        is_plain(index_view(number, sector)),
        raw_line(index_view(number, sector)).push('\n') == cue_gen::index_line(number, sector),
{
    let time = MsfTime::at(sector);
    text::lemma_padded(number as nat);
    text::lemma_padded(time.minute as nat);
    text::lemma_padded(time.second as nat);
    text::lemma_padded(time.frame as nat);
    assert((sector % 4500) / 75 < 60);
    reveal_strlit("    ");
    reveal_strlit("INDEX ");
    reveal_strlit("    INDEX ");
    assert("    INDEX "@ =~= "    "@ + "INDEX "@);
    assert(raw_line(index_view(number, sector)).push('\n') =~= cue_gen::index_line(
        number,
        sector,
    ));
}

proof fn lemma_track_is_plain(number: int, mode: TrackMode)
    requires
        0 <= number,
    ensures
        is_plain(track_view(number, mode)),
        raw_line(track_view(number, mode)).push('\n') == cue_gen::track_line(number, mode),
{
    text::lemma_padded(number as nat);
    assert(mode.name() == mode.name());
    reveal_strlit("  ");
    reveal_strlit("TRACK ");
    reveal_strlit("  TRACK ");
    assert("  TRACK "@ =~= "  "@ + "TRACK "@);
    assert(raw_line(track_view(number, mode)).push('\n') =~= cue_gen::track_line(number, mode));
}

/// The lines of the text of a sheet are the lines that it is written with.
proof fn lemma_sheet_lines(name: Seq<char>, runs: Seq<(u32, SectorType)>, n: int)
    requires
        0 <= n <= runs.len(),
        name.len() > 0,
        !name.contains('"'),
        !name.contains('\n'),
        minutes_fit(runs, n),
    ensures
        text::lines(cue_gen::cue_text(name, runs, n)) == raw_lines(sheet_views(name, runs, n)),
        text::ends_line(cue_gen::cue_text(name, runs, n)),
        all_plain(sheet_views(name, runs, n)),
    decreases n,
{
    let sheet = cue_gen::cue_text(name, runs, n);
    let views = sheet_views(name, runs, n);
    if n == 0 {
        let view = CueLineView::File { name, kind: "BINARY"@ };
        lemma_raw_line(view);
        reveal_strlit("FILE \"");
        reveal_strlit("\" ");
        reveal_strlit("BINARY");
        reveal_strlit("\" BINARY\n");
        assert("\" BINARY\n"@ =~= "\" "@ + "BINARY"@.push('\n'));
        assert(cue_gen::file_line(name) =~= raw_line(view).push('\n'));
        assert(sheet.last() == '\n');
        assert(raw_lines(views) =~= seq![raw_line(view)]);
    } else {
        lemma_sheet_lines(name, runs, n - 1);
        cue_gen::lemma_tracks_grow(runs, 0, n - 1);
        blocks::lemma_sectors_before_grow(runs, 0, n - 1);
        let state = cue_gen::cue_state(runs, n - 1);
        let sector_type = runs[n - 1].1;
        let sector = blocks::sectors_before(runs, n - 1);
        let before = cue_gen::cue_text(name, runs, n - 1);
        let fewer = sheet_views(name, runs, n - 1);
        let added = cue_gen::run_lines(state, sector_type, sector);
        let more = run_views(state, sector_type, sector);
        assert(more.len() > 0 ==> MsfTime::at(sector).minute <= 99);
        lemma_run_lines(state, sector_type, sector);
        text::lemma_lines_concat(before, added);
        if added.len() > 0 {
            assert(sheet.last() == added.last());
        } else {
            assert(sheet =~= before);
        }
        assert(raw_lines(views) =~= raw_lines(fewer) + raw_lines(more));
        assert forall|i: int| 0 <= i < views.len() implies is_plain(#[trigger] views[i]) by {
            if i < fewer.len() {
                assert(views[i] == fewer[i]);
            } else {
                assert(views[i] == more[i - fewer.len()]);
            }
        }
    }
}

/// The lines of the text of a run are the lines that it is written with.
proof fn lemma_run_lines(state: CueState, sector_type: SectorType, sector: int)
    requires
        0 <= state.track,
        0 <= sector,
        run_views(state, sector_type, sector).len() > 0 ==> MsfTime::at(sector).minute <= 99,
    ensures
        text::lines(cue_gen::run_lines(state, sector_type, sector)) == raw_lines(
            run_views(state, sector_type, sector),
        ),
        text::ends_line(cue_gen::run_lines(state, sector_type, sector)),
        all_plain(run_views(state, sector_type, sector)),
{
    let views = run_views(state, sector_type, sector);
    let added = cue_gen::run_lines(state, sector_type, sector);
    match TrackMode::of(sector_type) {
        None => {
            assert(raw_lines(views) =~= text::lines(added));
        },
        Some(mode) => if cue_gen::opens_track(state, mode, sector_type.pregap()) {
            let number: int = if sector_type.pregap() {
                0
            } else {
                1
            };
            let track = track_view(state.track + 1, mode);
            let index = index_view(number, sector);
            lemma_track_is_plain(state.track + 1, mode);
            lemma_index_is_plain(number, sector);
            lemma_raw_line(track);
            lemma_raw_line(index);
            text::lemma_lines_concat(raw_line(track).push('\n'), raw_line(index).push('\n'));
            assert(views =~= seq![track, index]);
            assert(raw_lines(views) =~= seq![raw_line(track)] + seq![raw_line(index)]);
        } else if state.pending {
            let index = index_view(1, sector);
            lemma_index_is_plain(1, sector);
            lemma_raw_line(index);
            assert(raw_lines(views) =~= seq![raw_line(index)]);
        } else {
            assert(raw_lines(views) =~= text::lines(added));
        },
    }
}

// ---------------------------------------------------------------------------
// Reading the lines back
// ---------------------------------------------------------------------------

/// A text that starts and ends with something other than white space, indented or
/// not, is left as it is without the white space around it.
proof fn lemma_indented(indent: Seq<char>, line: Seq<char>)
    requires
        text::is_blank(indent),
        line.len() > 0,
        !text::is_white(line[0]),
        !text::is_white(line.last()),
    ensures
        text::trimmed(indent + line) == line,
{
    text::law_spaces_around_do_not_matter(indent, line, Seq::empty());
    assert(indent + line + Seq::<char>::empty() =~= indent + line);
}

/// Without an `N` there is no `INDEX`.
proof fn lemma_no_index(line: Seq<char>)
    requires
        !line.contains('N'),
    ensures
        !cue_parser::holds(line, "INDEX "@),
{
    reveal_strlit("INDEX ");
    if cue_parser::holds(line, "INDEX "@) {
        let word = "INDEX "@;
        let i = choose|i: int|
            0 <= i && i + word.len() <= line.len() && #[trigger] line.subrange(i, i + word.len())
                == word;
        assert(line.subrange(i, i + word.len())[1] == line[i + 1]);
        assert(line[i + 1] == 'N');
    }
}

/// Whether the line of a file with the given name is not taken for an index point:
/// the word that an index point begins with is not in it, or there is none for
/// all that.
pub open spec fn name_is_no_index(name: Seq<char>) -> bool {
    let line = cue_parser::file_text(name, "BINARY"@);
    !cue_parser::holds(line, "INDEX "@) || cue_parser::captured(
        cue_parser::INDEX_PATTERN@,
        line,
    ) is None
}

/// What a plain line says is what it was written with, and its kind word is in
/// upper case. A file must not have a name in which there is an index point.
proof fn lemma_plain_line_is_understood(line: CueLineView)
    requires
        is_plain(line),
    ensures
        text::trimmed(raw_line(line)).len() > 0,
        cue_parser::understood(text::trimmed(raw_line(line))) && (line matches CueLineView::File {
            name,
            ..
        } ==> name_is_no_index(name)) ==> ({
            let found = text::trimmed(raw_line(line));
            &&& cue_parser::line_of(found) == line
            &&& !(line is Index) ==> cue_parser::uppercased(line.kind_word()) == line.kind_word()
        }),
{
    let found = text::trimmed(raw_line(line));
    match line {
        CueLineView::Index { number, minute, second, frame } => {
            let core = cue_parser::index_text(number, minute, second, frame);
            reveal_strlit("    ");
            reveal_strlit("INDEX ");
            assert(core[0] == 'I');
            assert(core.last() == frame.last());
            assert(text::is_digit(frame[frame.len() - 1]));
            lemma_indented("    "@, core);
        },
        CueLineView::Track { number, kind } => {
            let core = cue_parser::track_text(number, kind);
            let mode = choose|mode: TrackMode| kind == #[trigger] mode.name();
            reveal_strlit("  ");
            reveal_strlit("TRACK ");
            lemma_mode_letters(mode);
            assert(core[0] == 'T');
            assert(core.last() == kind.last());
            lemma_indented("  "@, core);
            lemma_number_lacks(number, 'N');
            lemma_push_lacks(number, ' ', 'N');
            lemma_concat_lacks("TRACK "@, number.push(' '), 'N');
            lemma_concat_lacks("TRACK "@ + number.push(' '), kind, 'N');
            lemma_no_index(core);
            if cue_parser::understood(found) {
                assert(cue_parser::line_of(found) == line);
                lemma_kind_is_upper(kind, cue_parser::uppercased(kind));
            }
        },
        CueLineView::File { name, kind } => {
            let core = cue_parser::file_text(name, kind);
            reveal_strlit("FILE \"");
            reveal_strlit("\" ");
            reveal_strlit("BINARY");
            reveal_strlit("TRACK");
            assert(core[0] == 'F');
            assert(core.last() == kind.last());
            assert(kind.last() == 'Y');
            lemma_indented(Seq::empty(), core);
            assert(Seq::<char>::empty() + core =~= core);
            assert("TRACK"@[0] == 'T');
            assert(!"TRACK"@.is_prefix_of(core)) by {
                if "TRACK"@.is_prefix_of(core) {
                    assert(core.subrange(0, 5)[0] == core[0]);
                }
            }
            assert(cue_parser::is_kind(kind));
            assert(!kind.contains('/'));
            if cue_parser::understood(found) && name_is_no_index(name) {
                assert(cue_parser::line_of(found) == line);
                lemma_kind_is_upper(kind, cue_parser::uppercased(kind));
            }
        },
        _ => {},
    }
}

/// Whether the first `n` lines of a sheet are understood.
pub open spec fn lines_understood(lines: Seq<Seq<char>>, n: int) -> bool {
    forall|i: int|
        0 <= i < n && text::trimmed(#[trigger] lines[i]).len() > 0 ==> cue_parser::understood(
            text::trimmed(lines[i]),
        )
}

proof fn lemma_read_back(lines: Seq<CueLineView>, name: Seq<char>, n: int)
    requires
        0 <= n <= lines.len(),
        all_plain(lines),
        forall|i: int|
            0 <= i < lines.len() ==> (#[trigger] lines[i] matches CueLineView::File {
                name: other,
                ..
            } ==> other == name),
    ensures
        lines_understood(raw_lines(lines), n) && name_is_no_index(name)
            ==> cue_parser::lines_outcome(raw_lines(lines), n) == views_outcome(lines, n),
    decreases n,
{
    if n > 0 && lines_understood(raw_lines(lines), n) && name_is_no_index(name) {
        lemma_read_back(lines, name, n - 1);
        let line = lines[n - 1];
        let raw = raw_lines(lines)[n - 1];
        assert(raw == raw_line(line));
        lemma_plain_line_is_understood(line);
    }
}

/// Whether what is written of a disc can be read from a CUE sheet: the name of the
/// file is not empty and holds no quotation mark and no line feed, the tracks can
/// be numbered in a byte, and the minutes of the index points have two digits.
pub open spec fn is_readable(name: Seq<char>, runs: Seq<(u32, SectorType)>) -> bool {
    &&& name.len() > 0
    &&& !name.contains('"')
    &&& !name.contains('\n')
    &&& cue_gen::cue_state(runs, runs.len() as int).track <= 255
    &&& minutes_fit(runs, runs.len() as int)
}

proof fn lemma_one_file(name: Seq<char>, runs: Seq<(u32, SectorType)>, n: int, i: int)
    requires
        0 <= i < sheet_views(name, runs, n).len(),
    ensures
        sheet_views(name, runs, n)[i] matches CueLineView::File { name: other, .. } ==> other
            == name,
    decreases n,
{
    if n > 0 {
        let fewer = sheet_views(name, runs, n - 1);
        if i < fewer.len() {
            lemma_one_file(name, runs, n - 1, i);
        }
    }
}

/// What the first lines of a written sheet make of it.
pub proof fn lemma_first_lines(name: Seq<char>, runs: Seq<(u32, SectorType)>, k: int)
    requires
        is_readable(name, runs),
        0 <= k <= text::lines(cue_gen::cue_text(name, runs, runs.len() as int)).len(),
    ensures
        ({
            let lines = text::lines(cue_gen::cue_text(name, runs, runs.len() as int));
            lines_understood(lines, k) && name_is_no_index(name) ==> {
                &&& cue_parser::lines_outcome(lines, k) is Ok
                &&& k == lines.len() ==> cue_parser::lines_outcome(lines, k) == Ok::<
                    CueParse,
                    CueFault,
                >(parsed(name, described(runs, runs.len() as int)))
            }
        }),
{
    let n = runs.len() as int;
    let views = sheet_views(name, runs, n);
    lemma_sheet_lines(name, runs, n);
    lemma_views(name, runs, n);
    assert forall|i: int| 0 <= i < views.len() implies (#[trigger] views[i] matches CueLineView::File {
        name: other,
        ..
    } ==> other == name) by {
        lemma_one_file(name, runs, n, i);
    }
    lemma_read_back(views, name, k);
    lemma_earlier_is_well(views, k, views.len() as int);
}

proof fn lemma_earlier_is_well(lines: Seq<CueLineView>, m: int, n: int)
    requires
        0 <= m <= n,
        views_outcome(lines, n) is Ok,
    ensures
        views_outcome(lines, m) is Ok,
    decreases n - m,
{
    if m < n {
        lemma_earlier_is_well(lines, m, n - 1);
    }
}

/// The file of a written sheet.
pub open spec fn described_file(name: Seq<char>, runs: Seq<(u32, SectorType)>) -> Seq<FileView> {
    seq![FileView { name, tracks: described(runs, runs.len() as int) }]
}

/// A written sheet is read back: it has one file of the given name with the tracks
/// that were written, provided that its lines are understood and that the name of
/// the file holds no index point.
pub proof fn law_written_sheet_is_read_back(name: Seq<char>, runs: Seq<(u32, SectorType)>)
    requires
        is_readable(name, runs),
    ensures
        ({
            let sheet = cue_gen::cue_text(name, runs, runs.len() as int);
            let lines = text::lines(sheet);
            lines_understood(lines, lines.len() as int) && name_is_no_index(name)
                ==> cue_parser::sheet_outcome(sheet) == Ok::<Seq<FileView>, CueFault>(
                described_file(name, runs),
            )
        }),
{
    let n = runs.len() as int;
    let tracks = described(runs, n);
    let sheet = cue_gen::cue_text(name, runs, n);
    lemma_first_lines(name, runs, text::lines(sheet).len() as int);
    if tracks.len() > 0 {
        assert(tracks.drop_last().push(tracks.last()) =~= tracks);
    } else {
        assert(tracks =~= Seq::empty());
    }
    assert(parsed(name, tracks).close_file().files =~= described_file(name, runs));
}

/// Whether a track opens at the run that brought the number of tracks there: its
/// first index point is at the start of that run.
pub open spec fn opens_at_its_run(
    track: TrackView,
    runs: Seq<(u32, SectorType)>,
    n: int,
    number: int,
) -> bool {
    exists|r: int|
        0 <= r < n && cue_gen::cue_state(runs, r).track + 1 == cue_gen::cue_state(
            runs,
            r + 1,
        ).track == number && track.indices[0].position == MsfTime::at(
            #[trigger] blocks::sectors_before(runs, r),
        )
}

proof fn lemma_described(runs: Seq<(u32, SectorType)>, n: int, i: int)
    requires
        0 <= n <= runs.len(),
        cue_gen::cue_state(runs, n).track <= 255,
        0 <= i < described(runs, n).len(),
    ensures
        ({
            let track = described(runs, n)[i];
            &&& track.number == i + 1
            &&& 1 <= track.indices.len() <= 2
            &&& track.indices.len() == 2 ==> track.indices[0].number == 0
                && track.indices[1].number == 1
            &&& opens_at_its_run(track, runs, n, i + 1)
            &&& cue_gen::cue_state(runs, n).pending && i + 1 == described(runs, n).len()
                ==> track.indices.len() == 1 && track.indices[0].number == 0
        }),
    decreases n,
{
    if n > 0 {
        cue_gen::lemma_tracks_grow(runs, n - 1, n);
        lemma_views(Seq::empty(), runs, n);
        lemma_views(Seq::empty(), runs, n - 1);
        let before = described(runs, n - 1);
        let track = described(runs, n)[i];
        if i < before.len() {
            lemma_described(runs, n - 1, i);
            let r = choose|r: int|
                0 <= r < n - 1 && cue_gen::cue_state(runs, r).track + 1 == cue_gen::cue_state(
                    runs,
                    r + 1,
                ).track == i + 1 && before[i].indices[0].position == MsfTime::at(
                    #[trigger] blocks::sectors_before(runs, r),
                );
            assert(track.indices[0] == before[i].indices[0]);
            assert(track.indices[0].position == MsfTime::at(blocks::sectors_before(runs, r)));
            assert(opens_at_its_run(track, runs, n, i + 1));
        } else {
            assert(track.indices[0].position == MsfTime::at(blocks::sectors_before(runs, n - 1)));
            assert(opens_at_its_run(track, runs, n, i + 1));
        }
    }
}

/// The tracks of a written sheet are numbered from one up. Each opens where the
/// run starts that opened it, and where it has two index points they are those of
/// its gap and of its content.
pub proof fn law_tracks_are_numbered(runs: Seq<(u32, SectorType)>, n: int, i: int)
    requires
        0 <= n <= runs.len(),
        cue_gen::cue_state(runs, n).track <= 255,
        0 <= i < described(runs, n).len(),
    ensures
        described(runs, n).len() == cue_gen::cue_state(runs, n).track,
        described(runs, n)[i].number == i + 1,
        1 <= described(runs, n)[i].indices.len() <= 2,
        described(runs, n)[i].indices.len() == 2 ==> described(runs, n)[i].indices[0].number == 0
            && described(runs, n)[i].indices[1].number == 1,
        opens_at_its_run(described(runs, n)[i], runs, n, i + 1),
{
    lemma_described(runs, n, i);
    lemma_views(Seq::empty(), runs, n);
}

/// Whether an index point is at the start of one of the first `n` runs.
pub open spec fn is_at_a_run(index: TrackIndex, runs: Seq<(u32, SectorType)>, n: int) -> bool {
    exists|r: int|
        0 <= r < n && index.position == MsfTime::at(#[trigger] blocks::sectors_before(runs, r))
            && index.position.frames() == blocks::sectors_before(runs, r)
}

/// Every index point of a written sheet is at the start of a run: in frames, its
/// position is the number of sectors in the runs before.
pub proof fn law_positions_are_run_starts(
    runs: Seq<(u32, SectorType)>,
    n: int,
    i: int,
    k: int,
)
    requires
        0 <= n <= runs.len(),
        cue_gen::cue_state(runs, n).track <= 255,
        blocks::sectors_before(runs, n) < 256 * 4500,
        0 <= i < described(runs, n).len(),
        0 <= k < described(runs, n)[i].indices.len(),
    ensures
        is_at_a_run(described(runs, n)[i].indices[k], runs, n),
    decreases n,
{
    if n > 0 {
        cue_gen::lemma_tracks_grow(runs, n - 1, n);
        blocks::lemma_sectors_before_grow(runs, 0, n - 1);
        blocks::lemma_sectors_before_grow(runs, n - 1, n);
        lemma_views(Seq::empty(), runs, n - 1);
        let before = described(runs, n - 1);
        let index = described(runs, n)[i].indices[k];
        let sector = blocks::sectors_before(runs, n - 1);
        disc::law_frames_to_position_and_back(sector);
        if i < before.len() && k < before[i].indices.len() {
            law_positions_are_run_starts(runs, n - 1, i, k);
            assert(index == before[i].indices[k]);
            let r = choose|r: int|
                0 <= r < n - 1 && index.position == MsfTime::at(
                    #[trigger] blocks::sectors_before(runs, r),
                ) && index.position.frames() == blocks::sectors_before(runs, r);
            assert(0 <= r < n);
        } else {
            assert(index.position == MsfTime::at(blocks::sectors_before(runs, n - 1)));
        }
    }
}

/// Positions never go down along a written sheet.
pub proof fn law_positions_never_decrease(
    runs: Seq<(u32, SectorType)>,
    n: int,
    i: int,
    k: int,
    j: int,
    l: int,
)
    requires
        0 <= n <= runs.len(),
        cue_gen::cue_state(runs, n).track <= 255,
        blocks::sectors_before(runs, n) < 256 * 4500,
        0 <= i <= j < described(runs, n).len(),
        0 <= k < described(runs, n)[i].indices.len(),
        0 <= l < described(runs, n)[j].indices.len(),
        i < j || k <= l,
    ensures
        described(runs, n)[i].indices[k].position.frames() <= described(
            runs,
            n,
        )[j].indices[l].position.frames(),
    decreases n,
{
    if n > 0 {
        cue_gen::lemma_tracks_grow(runs, n - 1, n);
        blocks::lemma_sectors_before_grow(runs, 0, n - 1);
        blocks::lemma_sectors_before_grow(runs, n - 1, n);
        lemma_views(Seq::empty(), runs, n - 1);
        let before = described(runs, n - 1);
        let all = described(runs, n);
        let sector = blocks::sectors_before(runs, n - 1);
        disc::law_frames_to_position_and_back(sector);
        if j < before.len() && l < before[j].indices.len() {
            assert(i < before.len() && k < before[i].indices.len());
            law_positions_never_decrease(runs, n - 1, i, k, j, l);
            assert(all[i].indices[k] == before[i].indices[k]);
            assert(all[j].indices[l] == before[j].indices[l]);
        } else {
            assert(all[j].indices[l].position == MsfTime::at(sector));
            if i < before.len() && k < before[i].indices.len() {
                assert(all[i].indices[k] == before[i].indices[k]);
                law_positions_are_run_starts(runs, n - 1, i, k);
                let index = before[i].indices[k];
                let r = choose|r: int|
                    0 <= r < n - 1 && index.position == MsfTime::at(
                        #[trigger] blocks::sectors_before(runs, r),
                    ) && index.position.frames() == blocks::sectors_before(runs, r);
                blocks::lemma_sectors_before_grow(runs, r, n - 1);
            }
        }
    }
}

/// The line of a file whose name holds no index point holds none.
proof fn lemma_plain_name(name: Seq<char>)
    requires
        !name.contains('"'),
        !cue_parser::holds(name, "INDEX "@),
    ensures
        name_is_no_index(name),
{
    reveal_strlit("FILE \"");
    reveal_strlit("\" ");
    reveal_strlit("BINARY");
    reveal_strlit("INDEX ");
    let word = "INDEX "@;
    let line = cue_parser::file_text(name, "BINARY"@);
    if cue_parser::holds(line, word) {
        let i = choose|i: int|
            0 <= i && i + word.len() <= line.len() && #[trigger] line.subrange(i, i + word.len())
                == word;
        let part = line.subrange(i, i + word.len());
        assert(part[0] == line[i] && part[1] == line[i + 1] && part[2] == line[i + 2]);
        assert(part[3] == line[i + 3] && part[4] == line[i + 4] && part[5] == line[i + 5]);
        let m = name.len() as int;
        assert(line[i] == 'I' && line[i + 1] == 'N' && line[i + 2] == 'D');
        assert(line[6 + m] == '"');
        assert(line[i + 3] == 'E' && line[i + 4] == 'X' && line[i + 5] == ' ');
        if i >= 6 && i + 6 <= 6 + m {
            assert(name.subrange(i - 6, i - 6 + word.len()) =~= part);
            assert(cue_parser::holds(name, word));
        } else if i < 6 {
            assert(line[0] == 'F' && line[1] == 'I' && line[2] == 'L' && line[3] == 'E' && line[4]
                == ' ' && line[5] == '"');
        } else if i <= 6 + m {
            let d = 6 + m - i;
            assert(line[i + d] == '"');
            assert(0 <= d < 6);
        } else {
            assert(line[7 + m] == ' ' && line[8 + m] == 'B' && line[9 + m] == 'I' && line[10 + m]
                == 'N' && line[11 + m] == 'A');
        }
    }
}

/// What is written of a disc of less than a hundred minutes can be read back, if
/// its tracks can be numbered and the file has a name without quotation marks, line
/// feeds and index points.
pub proof fn law_short_discs_are_readable(name: Seq<char>, runs: Seq<(u32, SectorType)>)
    requires
        name.len() > 0,
        !name.contains('"'),
        !name.contains('\n'),
        !cue_parser::holds(name, "INDEX "@),
        cue_gen::cue_state(runs, runs.len() as int).track <= 255,
        blocks::sectors_before(runs, runs.len() as int) < 100 * 4500,
    ensures
        is_readable(name, runs),
        name_is_no_index(name),
{
    let n = runs.len() as int;
    assert forall|i: int|
        0 <= i < n && (#[trigger] run_views(
            cue_gen::cue_state(runs, i),
            runs[i].1,
            blocks::sectors_before(runs, i),
        )).len() > 0 implies MsfTime::at(blocks::sectors_before(runs, i)).minute <= 99 by {
        blocks::lemma_sectors_before_grow(runs, 0, i);
        blocks::lemma_sectors_before_grow(runs, i, n);
    }
    lemma_plain_name(name);
}

// ---------------------------------------------------------------------------
// Sheets of any files
// ---------------------------------------------------------------------------

/// What a CUE sheet calls a track type.
pub open spec fn type_word(track_type: TrackType) -> Seq<char> {
    match track_type {
        TrackType::Audio => "AUDIO"@,
        TrackType::Mode1_2352 => "MODE1/2352"@,
        TrackType::Mode2_2352 => "MODE2/2352"@,
    }
}

/// The line of an index point.
pub open spec fn point_view(index: TrackIndex) -> CueLineView {
    CueLineView::Index {
        number: text::padded(index.number as nat),
        minute: text::padded(index.position.minute as nat),
        second: text::padded(index.position.second as nat),
        frame: text::padded(index.position.frame as nat),
    }
}

/// The lines of a track: the one that opens it, then one for each index point.
pub open spec fn track_lines(track: TrackView) -> Seq<CueLineView> {
    seq![
        CueLineView::Track {
            number: text::padded(track.number as nat),
            kind: type_word(track.track_type),
        },
    ] + track.indices.map_values(|index: TrackIndex| point_view(index))
}

/// The lines of the first `n` tracks of a file, behind the line that opens it.
pub open spec fn file_lines(file: FileView, n: int) -> Seq<CueLineView>
    decreases n,
{
    if n <= 0 {
        seq![CueLineView::File { name: file.name, kind: "BINARY"@ }]
    } else {
        file_lines(file, n - 1) + track_lines(file.tracks[n - 1])
    }
}

/// The lines of the first `n` files.
pub open spec fn files_lines(files: Seq<FileView>, n: int) -> Seq<CueLineView>
    decreases n,
{
    if n <= 0 {
        Seq::empty()
    } else {
        files_lines(files, n - 1) + file_lines(files[n - 1], files[n - 1].tracks.len() as int)
    }
}

/// The text of lines, each with its indentation and its line feed.
pub open spec fn written(lines: Seq<CueLineView>) -> Seq<char>
    decreases lines.len(),
{
    if lines.len() == 0 {
        Seq::empty()
    } else {
        written(lines.drop_last()) + raw_line(lines.last()).push('\n')
    }
}

/// Whether a track can be written down: its index points are positions of a disc
/// with minutes of two digits.
pub open spec fn track_is_writable(track: TrackView) -> bool {
    forall|i: int|
        0 <= i < track.indices.len() ==> (#[trigger] track.indices[i]).position.minute < 100
            && track.indices[i].position.second < 60 && track.indices[i].position.frame < 75
}

/// Whether a file can be written down: it has a name without quotation marks,
/// line feeds and index points, and its tracks can be written down.
pub open spec fn file_is_writable(file: FileView) -> bool {
    &&& file.name.len() > 0
    &&& !file.name.contains('"')
    &&& !file.name.contains('\n')
    &&& !cue_parser::holds(file.name, "INDEX "@)
    &&& forall|t: int| 0 <= t < file.tracks.len() ==> track_is_writable(#[trigger] file.tracks[t])
}

/// Whether files can be written down.
pub open spec fn files_are_writable(files: Seq<FileView>) -> bool {
    forall|f: int| 0 <= f < files.len() ==> file_is_writable(#[trigger] files[f])
}

/// What further lines make of a sheet when each is read as it was meant.
spec fn continued(state: CueParse, lines: Seq<CueLineView>, n: int) -> Result<CueParse, CueFault>
    decreases n,
{
    if n <= 0 {
        Ok(state)
    } else {
        match continued(state, lines, n - 1) {
            Err(fault) => Err(fault),
            Ok(state) => cue_parser::line_outcome(state, lines[n - 1], lines[n - 1].kind_word()),
        }
    }
}

proof fn lemma_continued_prefix(state: CueParse, a: Seq<CueLineView>, b: Seq<CueLineView>, n: int)
    requires
        n <= a.len(),
        n <= b.len(),
        forall|i: int| 0 <= i < n ==> a[i] == b[i],
    ensures
        continued(state, a, n) == continued(state, b, n),
    decreases n,
{
    if n > 0 {
        lemma_continued_prefix(state, a, b, n - 1);
        assert(a[n - 1] == b[n - 1]);
    }
}

proof fn lemma_continued_concat(
    state: CueParse,
    middle: CueParse,
    a: Seq<CueLineView>,
    b: Seq<CueLineView>,
    n: int,
)
    requires
        0 <= n <= b.len(),
        continued(state, a, a.len() as int) == Ok::<CueParse, CueFault>(middle),
    ensures
        continued(state, a + b, a.len() + n) == continued(middle, b, n),
    decreases n,
{
    if n == 0 {
        lemma_continued_prefix(state, a + b, a, a.len() as int);
    } else {
        lemma_continued_concat(state, middle, a, b, n - 1);
        assert((a + b)[a.len() + n - 1] == b[n - 1]);
    }
}

proof fn lemma_views_are_continued(lines: Seq<CueLineView>, n: int)
    ensures
        views_outcome(lines, n) == continued(CueParse::start(), lines, n),
    decreases n,
{
    if n > 0 {
        lemma_views_are_continued(lines, n - 1);
    }
}

proof fn lemma_type_names(track_type: TrackType)
    ensures
        cue_parser::track_type_of(type_word(track_type)) == Some(track_type),
        exists|mode: TrackMode| type_word(track_type) == #[trigger] mode.name(),
{
    let mode = match track_type {
        TrackType::Audio => TrackMode::Audio,
        TrackType::Mode1_2352 => TrackMode::Mode1,
        TrackType::Mode2_2352 => TrackMode::Mode2,
    };
    lemma_mode_names(mode);
    assert(type_word(track_type) == mode.name());
}

/// A track that is open with all its index points.
proof fn lemma_track_lines(state: CueParse, track: TrackView, n: int)
    requires
        state.file is Some,
        track_is_writable(track),
        0 <= n <= track.indices.len(),
    ensures
        continued(state, track_lines(track), n + 1) == Ok::<CueParse, CueFault>(
            CueParse {
                files: state.files,
                file: state.close_track().file,
                track: Some(
                    TrackView {
                        number: track.number,
                        track_type: track.track_type,
                        indices: track.indices.take(n),
                    },
                ),
            },
        ),
    decreases n,
{
    let lines = track_lines(track);
    if n == 0 {
        text::law_number_is_read_back(track.number);
        lemma_type_names(track.track_type);
        assert(continued(state, lines, 0) == Ok::<CueParse, CueFault>(state));
        assert(lines[0].kind_word() == type_word(track.track_type));
        assert(track.indices.take(0) =~= Seq::empty());
    } else {
        lemma_track_lines(state, track, n - 1);
        let index = track.indices[n - 1];
        assert(lines[n] == point_view(index));
        text::law_number_is_read_back(index.number);
        cue_parser::law_position_is_read_back(index.position);
        assert(track.indices.take(n) =~= track.indices.take(n - 1).push(index));
    }
}

/// How far a sheet has come when all lines of some tracks of a file are read: the
/// last track is open.
spec fn within_file(files: Seq<FileView>, file: FileView, n: int) -> CueParse {
    CueParse {
        files,
        file: Some(
            FileView {
                name: file.name,
                tracks: if n <= 0 {
                    Seq::empty()
                } else {
                    file.tracks.take(n - 1)
                },
            },
        ),
        track: if n <= 0 {
            None
        } else {
            Some(file.tracks[n - 1])
        },
    }
}

proof fn lemma_file_lines(state: CueParse, file: FileView, n: int)
    requires
        file_is_writable(file),
        0 <= n <= file.tracks.len(),
    ensures
        continued(state, file_lines(file, n), file_lines(file, n).len() as int) == Ok::<
            CueParse,
            CueFault,
        >(within_file(state.close_file().files, file, n)),
    decreases n,
{
    let lines = file_lines(file, n);
    if n == 0 {
        assert(continued(state, lines, 0) == Ok::<CueParse, CueFault>(state));
        assert(lines[0].kind_word() == "BINARY"@);
    } else {
        lemma_file_lines(state, file, n - 1);
        let before = within_file(state.close_file().files, file, n - 1);
        let track = file.tracks[n - 1];
        let more = track_lines(track);
        lemma_track_lines(before, track, track.indices.len() as int);
        assert(track.indices.take(track.indices.len() as int) =~= track.indices);
        lemma_continued_concat(state, before, file_lines(file, n - 1), more, more.len() as int);
        if n > 1 {
            assert(file.tracks.take(n - 1) =~= file.tracks.take(n - 2).push(file.tracks[n - 2]));
        } else {
            assert(file.tracks.take(0) =~= Seq::empty());
        }
    }
}

proof fn lemma_closed_file(files: Seq<FileView>, file: FileView)
    ensures
        within_file(files, file, file.tracks.len() as int).close_file().files == files.push(file),
{
    let n = file.tracks.len() as int;
    if n > 0 {
        assert(file.tracks.take(n - 1).push(file.tracks[n - 1]) =~= file.tracks);
    } else {
        assert(file.tracks =~= Seq::empty());
    }
}

/// Read as they were meant, the lines of files give the files.
proof fn lemma_files_lines(files: Seq<FileView>, n: int)
    requires
        files_are_writable(files),
        0 <= n <= files.len(),
    ensures
        views_outcome(files_lines(files, n), files_lines(files, n).len() as int) matches Ok(state)
            && state.close_file().files == files.take(n),
    decreases n,
{
    let lines = files_lines(files, n);
    if n == 0 {
        assert(CueParse::start().close_file().files =~= files.take(0));
    } else {
        lemma_files_lines(files, n - 1);
        let fewer = files_lines(files, n - 1);
        let file = files[n - 1];
        let more = file_lines(file, file.tracks.len() as int);
        let before = views_outcome(fewer, fewer.len() as int)->Ok_0;
        lemma_file_lines(before, file, file.tracks.len() as int);
        lemma_views_are_continued(fewer, fewer.len() as int);
        lemma_views_are_continued(lines, lines.len() as int);
        lemma_continued_concat(CueParse::start(), before, fewer, more, more.len() as int);
        lemma_closed_file(before.close_file().files, file);
        assert(files.take(n) =~= files.take(n - 1).push(file));
    }
}

proof fn lemma_plain_concat(a: Seq<CueLineView>, b: Seq<CueLineView>)
    requires
        all_plain(a),
        all_plain(b),
    ensures
        all_plain(a + b),
{
    assert forall|i: int| 0 <= i < (a + b).len() implies is_plain(#[trigger] (a + b)[i]) by {
        if i < a.len() {
            assert((a + b)[i] == a[i]);
        } else {
            assert((a + b)[i] == b[i - a.len()]);
        }
    }
}

proof fn lemma_track_lines_are_plain(track: TrackView)
    requires
        track_is_writable(track),
    ensures
        all_plain(track_lines(track)),
{
    let lines = track_lines(track);
    assert forall|i: int| 0 <= i < lines.len() implies is_plain(#[trigger] lines[i]) by {
        if i == 0 {
            text::lemma_padded(track.number as nat);
            lemma_type_names(track.track_type);
        } else {
            let index = track.indices[i - 1];
            assert(lines[i] == point_view(index));
            text::lemma_padded(index.number as nat);
            text::lemma_padded(index.position.minute as nat);
            text::lemma_padded(index.position.second as nat);
            text::lemma_padded(index.position.frame as nat);
        }
    }
}

proof fn lemma_file_lines_are_plain(file: FileView, n: int)
    requires
        file_is_writable(file),
        0 <= n <= file.tracks.len(),
    ensures
        all_plain(file_lines(file, n)),
        files_are_no_index(file_lines(file, n)),
    decreases n,
{
    if n == 0 {
        lemma_plain_name(file.name);
    } else {
        lemma_file_lines_are_plain(file, n - 1);
        lemma_track_lines_are_plain(file.tracks[n - 1]);
        lemma_plain_concat(file_lines(file, n - 1), track_lines(file.tracks[n - 1]));
        assert(files_are_no_index(track_lines(file.tracks[n - 1])));
    }
}

proof fn lemma_files_lines_are_plain(files: Seq<FileView>, n: int)
    requires
        files_are_writable(files),
        0 <= n <= files.len(),
    ensures
        all_plain(files_lines(files, n)),
        files_are_no_index(files_lines(files, n)),
    decreases n,
{
    if n > 0 {
        let file = files[n - 1];
        lemma_files_lines_are_plain(files, n - 1);
        lemma_file_lines_are_plain(file, file.tracks.len() as int);
        lemma_plain_concat(
            files_lines(files, n - 1),
            file_lines(file, file.tracks.len() as int),
        );
    }
}

/// Whether no line that opens a file is taken for an index point.
spec fn files_are_no_index(lines: Seq<CueLineView>) -> bool {
    forall|i: int|
        0 <= i < lines.len() ==> (#[trigger] lines[i] matches CueLineView::File { name, .. }
            ==> name_is_no_index(name))
}

/// The lines of the text of lines are those lines.
proof fn lemma_written_lines(lines: Seq<CueLineView>)
    requires
        all_plain(lines),
    ensures
        text::lines(written(lines)) == raw_lines(lines),
        text::ends_line(written(lines)),
    decreases lines.len(),
{
    if lines.len() == 0 {
        assert(raw_lines(lines) =~= Seq::empty());
    } else {
        let front = lines.drop_last();
        assert(all_plain(front)) by {
            assert forall|i: int| 0 <= i < front.len() implies is_plain(#[trigger] front[i]) by {
                assert(front[i] == lines[i]);
            }
        }
        lemma_written_lines(front);
        lemma_raw_line(lines.last());
        text::lemma_lines_concat(written(front), raw_line(lines.last()).push('\n'));
        assert(written(lines).last() == '\n');
        assert(raw_lines(lines) =~= raw_lines(front) + seq![raw_line(lines.last())]);
    }
}

proof fn lemma_plain_lines_are_read(lines: Seq<CueLineView>, n: int)
    requires
        0 <= n <= lines.len(),
        all_plain(lines),
    ensures
        lines_understood(raw_lines(lines), n) && files_are_no_index(lines)
            ==> cue_parser::lines_outcome(raw_lines(lines), n) == views_outcome(lines, n),
    decreases n,
{
    if n > 0 && lines_understood(raw_lines(lines), n) && files_are_no_index(lines) {
        lemma_plain_lines_are_read(lines, n - 1);
        let line = lines[n - 1];
        assert(raw_lines(lines)[n - 1] == raw_line(line));
        lemma_plain_line_is_understood(line);
    }
}

/// The text of a sheet of files.
pub open spec fn files_text(files: Seq<FileView>) -> Seq<char> {
    written(files_lines(files, files.len() as int))
}

/// The first lines of a sheet of files are well.
pub proof fn lemma_first_files_lines(files: Seq<FileView>, k: int)
    requires
        files_are_writable(files),
        0 <= k <= text::lines(files_text(files)).len(),
    ensures
        lines_understood(text::lines(files_text(files)), k) ==> cue_parser::lines_outcome(
            text::lines(files_text(files)),
            k,
        ) is Ok,
{
    let n = files.len() as int;
    let lines = files_lines(files, n);
    lemma_files_lines_are_plain(files, n);
    lemma_written_lines(lines);
    lemma_files_lines(files, n);
    lemma_plain_lines_are_read(lines, k);
    lemma_earlier_is_well(lines, k, lines.len() as int);
}

/// A sheet that is written for any list of files is read back: each line that
/// opens a file gives one file, in order and under its own name, with the tracks
/// and index points that follow it, provided that the lines are understood.
pub proof fn law_files_are_read_back(files: Seq<FileView>)
    requires
        files_are_writable(files),
    ensures
        ({
            let lines = text::lines(files_text(files));
            lines_understood(lines, lines.len() as int) ==> cue_parser::sheet_outcome(
                files_text(files),
            ) == Ok::<Seq<FileView>, CueFault>(files)
        }),
{
    let n = files.len() as int;
    let lines = files_lines(files, n);
    lemma_files_lines_are_plain(files, n);
    lemma_written_lines(lines);
    lemma_files_lines(files, n);
    lemma_plain_lines_are_read(lines, lines.len() as int);
    assert(files.take(n) =~= files);
}

// ---------------------------------------------------------------------------
// Which track a sector is listed under
// ---------------------------------------------------------------------------

/// Whether a sector lies within a track that has the given type: not before the
/// track's first index point, and before that of the next track.
pub open spec fn is_listed_as(tracks: Seq<TrackView>, sector: int, track_type: TrackType) -> bool {
    exists|i: int|
        0 <= i < tracks.len() && (#[trigger] tracks[i]).track_type == track_type
            && tracks[i].indices[0].position.frames() <= sector && (i + 1 < tracks.len() ==> sector
            < tracks[i + 1].indices[0].position.frames())
}

proof fn lemma_last_track_mode(runs: Seq<(u32, SectorType)>, n: int)
    requires
        0 <= n <= runs.len(),
        cue_gen::cue_state(runs, n).track <= 255,
    ensures
        described(runs, n).len() == cue_gen::cue_state(runs, n).track,
        described(runs, n).len() > 0 ==> cue_gen::cue_state(runs, n).mode is Some
            && described(runs, n).last().track_type == type_of_mode(
            cue_gen::cue_state(runs, n).mode->0,
        ),
    decreases n,
{
    lemma_views(Seq::empty(), runs, n);
    if n > 0 {
        cue_gen::lemma_tracks_grow(runs, n - 1, n);
        lemma_last_track_mode(runs, n - 1);
    }
}

proof fn lemma_track_types_stay(runs: Seq<(u32, SectorType)>, m: int, n: int, i: int)
    requires
        0 <= m <= n <= runs.len(),
        cue_gen::cue_state(runs, n).track <= 255,
        0 <= i < described(runs, m).len(),
    ensures
        i < described(runs, n).len(),
        described(runs, n)[i].track_type == described(runs, m)[i].track_type,
        described(runs, n)[i].indices[0] == described(runs, m)[i].indices[0],
    decreases n,
{
    if m < n {
        cue_gen::lemma_tracks_grow(runs, m, n - 1);
        cue_gen::lemma_tracks_grow(runs, n - 1, n);
        lemma_track_types_stay(runs, m, n - 1, i);
        lemma_views(Seq::empty(), runs, n - 1);
        lemma_described(runs, n - 1, i);
    }
}

/// The run that opens a track, at which its first index point is.
proof fn lemma_opening_run(runs: Seq<(u32, SectorType)>, n: int, i: int) -> (a: int)
    requires
        0 <= n <= runs.len(),
        cue_gen::cue_state(runs, n).track <= 255,
        blocks::sectors_before(runs, n) < 256 * 4500,
        0 <= i < described(runs, n).len(),
    ensures
        0 <= a < n,
        cue_gen::cue_state(runs, a).track == i,
        cue_gen::cue_state(runs, a + 1).track == i + 1,
        described(runs, n)[i].indices[0].position.frames() == blocks::sectors_before(runs, a),
{
    lemma_described(runs, n, i);
    let track = described(runs, n)[i];
    assert(opens_at_its_run(track, runs, n, i + 1));
    let a = choose|a: int|
        0 <= a < n && cue_gen::cue_state(runs, a).track + 1 == cue_gen::cue_state(
            runs,
            a + 1,
        ).track == i + 1 && track.indices[0].position == MsfTime::at(
            #[trigger] blocks::sectors_before(runs, a),
        );
    blocks::lemma_sectors_before_grow(runs, 0, a);
    blocks::lemma_sectors_before_grow(runs, a, n);
    disc::law_frames_to_position_and_back(blocks::sectors_before(runs, a));
    a
}

proof fn lemma_listed(runs: Seq<(u32, SectorType)>, r: int, sector: int, mode: TrackMode)
    requires
        0 <= r < runs.len(),
        cue_gen::cue_state(runs, runs.len() as int).track <= 255,
        blocks::sectors_before(runs, runs.len() as int) < 256 * 4500,
        blocks::sectors_before(runs, r) <= sector < blocks::sectors_before(runs, r + 1),
        TrackMode::of(runs[r].1) == Some(mode),
    ensures
        is_listed_as(described(runs, runs.len() as int), sector, type_of_mode(mode)),
{
    let n = runs.len() as int;
    let tracks = described(runs, n);
    cue_gen::lemma_tracks_grow(runs, 0, r);
    cue_gen::lemma_tracks_grow(runs, r, r + 1);
    cue_gen::lemma_tracks_grow(runs, r + 1, n);
    lemma_last_track_mode(runs, r + 1);
    lemma_last_track_mode(runs, n);
    let i = cue_gen::cue_state(runs, r + 1).track - 1;
    assert(cue_gen::cue_state(runs, r + 1) == cue_gen::after_run(
        cue_gen::cue_state(runs, r),
        runs[r].1,
    ));
    assert(cue_gen::cue_state(runs, r + 1).mode == Some(mode));
    assert(i >= 0);
    lemma_track_types_stay(runs, r + 1, n, i);
    assert(tracks[i].track_type == type_of_mode(mode));
    let a = lemma_opening_run(runs, n, i);
    if a > r {
        cue_gen::lemma_tracks_grow(runs, r + 1, a);
    }
    blocks::lemma_sectors_before_grow(runs, a, r);
    if i + 1 < tracks.len() {
        let b = lemma_opening_run(runs, n, i + 1);
        if b <= r {
            cue_gen::lemma_tracks_grow(runs, b + 1, r + 1);
        }
        blocks::lemma_sectors_before_grow(runs, r + 1, b);
    }
}

/// Every sector is listed under a track of its own kind: from the track's first
/// index point up to that of the next track, an AUDIO track holds audio, a MODE1
/// track Mode 1 sectors and a MODE2 track Mode 2 sectors of either form, gaps and
/// deviating and zeroed sectors included.
pub proof fn law_sectors_are_listed_under_their_mode(runs: Seq<(u32, SectorType)>, sector: int)
    requires
        cue_gen::cue_state(runs, runs.len() as int).track <= 255,
        disc::expanded(runs).len() < 256 * 60 * 75,
        0 <= sector < disc::expanded(runs).len(),
    ensures
        ({
            let tracks = described(runs, runs.len() as int);
            let sector_type = disc::expanded(runs)[sector];
            &&& sector_type is Audio || sector_type is PregapAudio || sector_type is ZeroedAudio
                ==> is_listed_as(tracks, sector, TrackType::Audio)
            &&& sector_type is Mode1 || sector_type is Mode1Exception || sector_type
                is PregapMode1 || sector_type is PregapMode1Exception || sector_type
                is ZeroedMode1Data ==> is_listed_as(tracks, sector, TrackType::Mode1_2352)
            &&& sector_type is Mode2Form1 || sector_type is Mode2Form1Exception || sector_type
                is Mode2Form2 || sector_type is Mode2Form2Exception || sector_type is PregapMode2
                || sector_type is PregapMode2Exception || sector_type is ZeroedMode2Data
                ==> is_listed_as(tracks, sector, TrackType::Mode2_2352)
        }),
{
    let n = runs.len() as int;
    blocks::lemma_expanded_len(runs);
    let r = blocks::lemma_run_of_sector(runs, sector, n);
    if let Some(mode) = TrackMode::of(runs[r].1) {
        lemma_listed(runs, r, sector, mode);
    }
}

/// No track is cut in two for nothing: two tracks in a row are of different types,
/// or the later one opens with a gap.
pub proof fn law_tracks_are_told_apart(runs: Seq<(u32, SectorType)>, n: int, i: int)
    requires
        0 <= n <= runs.len(),
        cue_gen::cue_state(runs, n).track <= 255,
        0 <= i,
        i + 1 < described(runs, n).len(),
    ensures
        described(runs, n)[i].track_type != described(runs, n)[i + 1].track_type || described(
            runs,
            n,
        )[i + 1].indices[0].number == 0,
    decreases n,
{
    if n > 0 {
        cue_gen::lemma_tracks_grow(runs, n - 1, n);
        let before = described(runs, n - 1);
        lemma_last_track_mode(runs, n - 1);
        lemma_track_types_stay(runs, n - 1, n, i);
        if i + 1 < before.len() {
            law_tracks_are_told_apart(runs, n - 1, i);
            lemma_track_types_stay(runs, n - 1, n, i + 1);
        }
    }
}

/// A track opens with index 0 if the run that opens it is a gap, and else with
/// index 1.
pub proof fn law_gaps_have_index_zero(runs: Seq<(u32, SectorType)>, n: int, r: int)
    requires
        0 <= r < n <= runs.len(),
        cue_gen::cue_state(runs, n).track <= 255,
        cue_gen::cue_state(runs, r).track < cue_gen::cue_state(runs, r + 1).track,
    ensures
        cue_gen::cue_state(runs, r).track < described(runs, n).len(),
        described(runs, n)[cue_gen::cue_state(runs, r).track].indices[0].position == MsfTime::at(
            blocks::sectors_before(runs, r),
        ),
        described(runs, n)[cue_gen::cue_state(runs, r).track].indices[0].number == (if runs[r].1
            is PregapAudio || runs[r].1 is PregapMode1 || runs[r].1 is PregapMode2 || runs[r].1
            is PregapMode1Exception || runs[r].1 is PregapMode2Exception {
            0int
        } else {
            1
        }),
{
    cue_gen::lemma_tracks_grow(runs, 0, r);
    cue_gen::lemma_tracks_grow(runs, r + 1, n);
    lemma_last_track_mode(runs, r);
    lemma_last_track_mode(runs, r + 1);
    lemma_track_types_stay(runs, r + 1, n, cue_gen::cue_state(runs, r).track);
}

} // verus!
