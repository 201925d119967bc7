//! Reading CUE sheets.

use vstd::prelude::*;
use crate::cue_gen;
use crate::cue_roundtrip;
use crate::disc;
use crate::disc::{
    CueFile, CueSheet, MsfTime, SectorType, Track, TrackIndex, TrackType, TrackView,
};
use crate::text;
use crate::text::{parse_u8, split_lines, take_chars, trim_text};

verus! {

/// What can be wrong with a CUE sheet.
#[derive(Debug, PartialEq, Eq)]
pub enum ParseError {
    InvalidLine(String),
    UnexpectedCommand(String),
    MissingFile,
    MissingTrack,
    InvalidTimestamp(String, String, String),
    ParseIntError(String),
    InvalidTrackType(String),
    UnsupportedFileType(String),
}

/// What is wrong with a CUE sheet.
pub enum CueFault {
    InvalidLine(Seq<char>),
    UnexpectedCommand(Seq<char>),
    MissingFile,
    MissingTrack,
    InvalidTimestamp(Seq<char>, Seq<char>, Seq<char>),
    ParseIntError(Seq<char>),
    InvalidTrackType(Seq<char>),
    UnsupportedFileType(Seq<char>),
}

impl View for ParseError {
    type V = CueFault;

    open spec fn view(&self) -> CueFault {
        match self {
            ParseError::InvalidLine(t) => CueFault::InvalidLine(t@),
            ParseError::UnexpectedCommand(t) => CueFault::UnexpectedCommand(t@),
            ParseError::MissingFile => CueFault::MissingFile,
            ParseError::MissingTrack => CueFault::MissingTrack,
            ParseError::InvalidTimestamp(m, s, f) => CueFault::InvalidTimestamp(m@, s@, f@),
            ParseError::ParseIntError(t) => CueFault::ParseIntError(t@),
            ParseError::InvalidTrackType(t) => CueFault::InvalidTrackType(t@),
            ParseError::UnsupportedFileType(t) => CueFault::UnsupportedFileType(t@),
        }
    }
}

// ---------------------------------------------------------------------------
// Numbers, positions and track types
// ---------------------------------------------------------------------------

/// The position that three numbers give, or what is wrong with them.
pub open spec fn msf_outcome(
    minute: Seq<char>,
    second: Seq<char>,
    frame: Seq<char>,
) -> Result<MsfTime, CueFault> {
    match (text::u8_of(minute), text::u8_of(second), text::u8_of(frame)) {
        (None, _, _) => Err(CueFault::ParseIntError(minute)),
        (_, None, _) => Err(CueFault::ParseIntError(second)),
        (_, _, None) => Err(CueFault::ParseIntError(frame)),
        (Some(m), Some(s), Some(f)) => if s >= 60 || f >= 75 {
            Err(CueFault::InvalidTimestamp(minute, second, frame))
        } else {
            Ok(MsfTime { minute: m, second: s, frame: f })
        },
    }
}

/// Reads a position from its three numbers.
pub fn parse_msf(minute_str: &str, second_str: &str, frame_str: &str) -> (r: Result<
    MsfTime,
    ParseError,
>)
    ensures
        match r {
            Ok(time) => msf_outcome(minute_str@, second_str@, frame_str@) == Ok::<
                MsfTime,
                CueFault,
            >(time),
            Err(e) => msf_outcome(minute_str@, second_str@, frame_str@) == Err::<
                MsfTime,
                CueFault,
            >(e@),
        },
{
    let minute: u8 = match parse_u8(minute_str) {
        Some(n) => n,
        None => return Err(ParseError::ParseIntError(minute_str.to_owned())),
    };
    let second: u8 = match parse_u8(second_str) {
        Some(n) => n,
        None => return Err(ParseError::ParseIntError(second_str.to_owned())),
    };
    let frame: u8 = match parse_u8(frame_str) {
        Some(n) => n,
        None => return Err(ParseError::ParseIntError(frame_str.to_owned())),
    };
    if second >= 60 || frame >= 75 {
        return Err(
            ParseError::InvalidTimestamp(
                minute_str.to_owned(),
                second_str.to_owned(),
                frame_str.to_owned(),
            ),
        );
    }
    Ok(MsfTime { minute, second, frame })
}

/// A text in upper case.
pub uninterp spec fn uppercased(text: Seq<char>) -> Seq<char>;

/// A character of ASCII in upper case.
pub open spec fn ascii_upper(c: char) -> char {
    if 'a' <= c <= 'z' {
        (c as int - 32) as char
    } else {
        c
    }
}

/// Whether a text is in ASCII.
pub open spec fn is_ascii(word: Seq<char>) -> bool {
    forall|i: int| 0 <= i < word.len() ==> (#[trigger] word[i]) as int <= 127
}

/// Whether `upper` can be a text in upper case: where the text is in ASCII, its
/// letters and nothing else have changed.
pub open spec fn raised(word: Seq<char>, upper: Seq<char>) -> bool {
    is_ascii(word) ==> upper == word.map_values(|c: char| ascii_upper(c))
}

/// `str::to_uppercase`: the text with every character replaced by its uppercase
/// form in Unicode. In ASCII the small letters become capital ones, and all else
/// stays.
#[verifier::external_body]
fn to_upper(word: &str) -> (upper: String)
    ensures
        upper@ == uppercased(word@),
        raised(word@, upper@),
{
    word.to_uppercase()
}

/// The track type that a name in upper case stands for.
pub open spec fn track_type_of(upper: Seq<char>) -> Option<TrackType> {
    if upper == "AUDIO"@ {
        Some(TrackType::Audio)
    } else if upper == "MODE1/2352"@ {
        Some(TrackType::Mode1_2352)
    } else if upper == "MODE2/2352"@ {
        Some(TrackType::Mode2_2352)
    } else {
        None
    }
}

/// The track type that a name in upper case stands for.
pub fn track_type_named(upper: &str) -> (track_type: Option<TrackType>)
    ensures
        track_type == track_type_of(upper@),
{
    if text::same_text(upper, "AUDIO") {
        Some(TrackType::Audio)
    } else if text::same_text(upper, "MODE1/2352") {
        Some(TrackType::Mode1_2352)
    } else if text::same_text(upper, "MODE2/2352") {
        Some(TrackType::Mode2_2352)
    } else {
        None
    }
}

/// Reads a track type, whatever its case.
pub fn parse_track_type(track: &str) -> (r: Result<TrackType, ParseError>)
    ensures
        match track_type_of(uppercased(track@)) {
            Some(track_type) => r == Ok::<TrackType, ParseError>(track_type),
            None => r matches Err(e) && e@ == CueFault::InvalidTrackType(track@),
        },
        raised(track@, uppercased(track@)),
{
    match track_type_named(to_upper(track).as_str()) {
        Some(track_type) => Ok(track_type),
        None => Err(ParseError::InvalidTrackType(track.to_owned())),
    }
}

// ---------------------------------------------------------------------------
// Line patterns
// ---------------------------------------------------------------------------

/// The pattern of a line that names a file.
pub const FILE_PATTERN: &'static str = r#"^FILE\s+"([^"]+)"\s+(\w+)"#;

/// The pattern of a line that opens a track.
pub const TRACK_PATTERN: &'static str = r"^TRACK\s+(\d+)\s+([\w/]+)";

/// The pattern of a line that sets an index point.
pub const INDEX_PATTERN: &'static str = r"INDEX (\d+) (\d{2}):(\d{2}):(\d{2})";

/// A compiled pattern.
#[verifier::external_type_specification]
#[verifier::external_body]
pub struct ExRegex(regex::Regex);

/// The pattern that was compiled, with no options.
pub uninterp spec fn pattern_of(pattern: regex::Regex) -> Seq<char>;

/// The texts of the first four groups of a pattern in a line, each where it took
/// part, if the pattern matches.
pub type Groups = (Option<String>, Option<String>, Option<String>, Option<String>);

/// The texts of the first four groups.
pub type GroupTexts = (Option<Seq<char>>, Option<Seq<char>>, Option<Seq<char>>, Option<Seq<char>>);

/// A text, if there is one.
pub open spec fn text_of(word: Option<String>) -> Option<Seq<char>> {
    match word {
        None => None,
        Some(t) => Some(t@),
    }
}

/// The texts of groups, if there is a match.
pub open spec fn texts_of(groups: Option<Groups>) -> Option<GroupTexts> {
    match groups {
        None => None,
        Some(g) => Some((text_of(g.0), text_of(g.1), text_of(g.2), text_of(g.3))),
    }
}

/// What the leftmost match of a pattern in a line captures.
pub uninterp spec fn captured(pattern: Seq<char>, line: Seq<char>) -> Option<GroupTexts>;

/// Whether a text holds a word somewhere.
pub open spec fn holds(line: Seq<char>, word: Seq<char>) -> bool {
    exists|i: int|
        0 <= i && i + word.len() <= line.len() && #[trigger] line.subrange(i, i + word.len())
            == word
}

/// Whether a text is one or more decimal digits.
pub open spec fn is_number(word: Seq<char>) -> bool {
    word.len() > 0 && forall|i: int| 0 <= i < word.len() ==> text::is_digit(#[trigger] word[i])
}

/// Whether a text is one or more capital letters, digits and slashes.
pub open spec fn is_kind(word: Seq<char>) -> bool {
    word.len() > 0 && forall|i: int|
        0 <= i < word.len() ==> ('A' <= (#[trigger] word[i]) <= 'Z' || text::is_digit(word[i])
            || word[i] == '/')
}

/// An index point as it is written.
pub open spec fn index_text(
    number: Seq<char>,
    minute: Seq<char>,
    second: Seq<char>,
    frame: Seq<char>,
) -> Seq<char> {
    "INDEX "@ + number.push(' ') + minute.push(':') + second.push(':') + frame
}

/// A track as it is written.
pub open spec fn track_text(number: Seq<char>, kind: Seq<char>) -> Seq<char> {
    "TRACK "@ + number.push(' ') + kind
}

/// A file as it is written.
pub open spec fn file_text(name: Seq<char>, kind: Seq<char>) -> Seq<char> {
    "FILE \""@ + name + "\" "@ + kind
}

/// Whether `groups` can be what a line pattern captures in a line, by the plainest
/// of its lines. Without the word `INDEX` and a space there is no index point, and
/// a track or a file stands at the start of its line. An index point, a track or a
/// file that is written with single spaces is captured as it is written.
pub open spec fn captures_plainly(
    pattern: Seq<char>,
    line: Seq<char>,
    groups: Option<GroupTexts>,
) -> bool {
    &&& pattern == INDEX_PATTERN@ && !holds(line, "INDEX "@) ==> groups is None
    &&& pattern == TRACK_PATTERN@ && !"TRACK"@.is_prefix_of(line) ==> groups is None
    &&& pattern == FILE_PATTERN@ && !"FILE"@.is_prefix_of(line) ==> groups is None
    &&& forall|number: Seq<char>, minute: Seq<char>, second: Seq<char>, frame: Seq<char>|
        pattern == INDEX_PATTERN@ && line == #[trigger] index_text(number, minute, second, frame)
            && is_number(number) && is_number(minute) && minute.len() == 2 && is_number(second)
            && second.len() == 2 && is_number(frame) && frame.len() == 2 ==> groups == Some(
            (Some(number), Some(minute), Some(second), Some(frame)),
        )
    &&& forall|number: Seq<char>, kind: Seq<char>|
        pattern == TRACK_PATTERN@ && line == #[trigger] track_text(number, kind) && is_number(
            number,
        ) && is_kind(kind) ==> groups == Some(
            (Some(number), Some(kind), None::<Seq<char>>, None::<Seq<char>>),
        )
    &&& forall|name: Seq<char>, kind: Seq<char>|
        pattern == FILE_PATTERN@ && line == #[trigger] file_text(name, kind) && name.len() > 0
            && !name.contains('"') && is_kind(kind) && !kind.contains('/') ==> groups == Some(
            (Some(name), Some(kind), None::<Seq<char>>, None::<Seq<char>>),
        )
}

/// `Regex::new`: compiles one of the three line patterns, all of which are well
/// formed. The compiled pattern keeps the text that it was made from.
#[verifier::external_body]
fn compile(pattern: &str) -> (compiled: regex::Regex)
    requires
        pattern@ == FILE_PATTERN@ || pattern@ == TRACK_PATTERN@ || pattern@ == INDEX_PATTERN@,
    ensures
        pattern_of(compiled) == pattern@,
{
    regex::Regex::new(pattern).unwrap()
}

/// `Regex::captures`: finds the leftmost match of a pattern in a line and hands
/// out its groups, which depend on the pattern and the line alone. Of the three
/// line patterns it also says what they capture in their plainest lines, and that
/// there is no match without the word that each of them begins with.
#[verifier::external_body]
fn captures(pattern: &regex::Regex, line: &str) -> (groups: Option<Groups>)
    ensures
        texts_of(groups) == captured(pattern_of(*pattern), line@),
        captures_plainly(pattern_of(*pattern), line@, texts_of(groups)),
{
    match pattern.captures(line) {
        None => None,
        Some(found) => Some((
            found.get(1).map(|m| m.as_str().to_string()),
            found.get(2).map(|m| m.as_str().to_string()),
            found.get(3).map(|m| m.as_str().to_string()),
            found.get(4).map(|m| m.as_str().to_string()),
        )),
    }
}

// ---------------------------------------------------------------------------
// Lines
// ---------------------------------------------------------------------------

/// What a line of a CUE sheet says.
#[derive(Clone, Debug, PartialEq, Eq)]
pub enum CueLine {
    Index { number: String, minute: String, second: String, frame: String },
    /// An index point whose numbers were not captured.
    BareIndex,
    Track { number: String, kind: String },
    File { name: String, kind: String },
    Other,
}

/// What a line of a CUE sheet says.
pub enum CueLineView {
    Index { number: Seq<char>, minute: Seq<char>, second: Seq<char>, frame: Seq<char> },
    BareIndex,
    Track { number: Seq<char>, kind: Seq<char> },
    File { name: Seq<char>, kind: Seq<char> },
    Other,
}

impl View for CueLine {
    type V = CueLineView;

    open spec fn view(&self) -> CueLineView {
        match self {
            CueLine::Index { number, minute, second, frame } => CueLineView::Index {
                number: number@,
                minute: minute@,
                second: second@,
                frame: frame@,
            },
            CueLine::BareIndex => CueLineView::BareIndex,
            CueLine::Track { number, kind } => CueLineView::Track { number: number@, kind: kind@ },
            CueLine::File { name, kind } => CueLineView::File { name: name@, kind: kind@ },
            CueLine::Other => CueLineView::Other,
        }
    }
}

impl CueLineView {
    /// The word of the line whose case does not matter.
    pub open spec fn kind_word(self) -> Seq<char> {
        match self {
            CueLineView::Track { kind, .. } => kind,
            CueLineView::File { kind, .. } => kind,
            _ => Seq::empty(),
        }
    }
}

/// What a line says, by what the patterns captured in it. An index point comes
/// first, then a track, then a file.
pub open spec fn classified(
    index: Option<GroupTexts>,
    track: Option<GroupTexts>,
    file: Option<GroupTexts>,
) -> CueLineView {
    if let Some(groups) = index {
        match groups {
            (Some(number), Some(minute), Some(second), Some(frame)) => CueLineView::Index {
                number,
                minute,
                second,
                frame,
            },
            _ => CueLineView::BareIndex,
        }
    } else if let Some((Some(number), Some(kind), _, _)) = track {
        CueLineView::Track { number, kind }
    } else if let Some((Some(name), Some(kind), _, _)) = file {
        CueLineView::File { name, kind }
    } else {
        CueLineView::Other
    }
}

/// Tells what a line says from what the patterns captured in it.
pub fn classify(index: Option<Groups>, track: Option<Groups>, file: Option<Groups>) -> (line:
    CueLine)
    ensures
        line@ == classified(texts_of(index), texts_of(track), texts_of(file)),
{
    if let Some(groups) = index {
        return match groups {
            (Some(number), Some(minute), Some(second), Some(frame)) => CueLine::Index {
                number,
                minute,
                second,
                frame,
            },
            _ => CueLine::BareIndex,
        };
    }
    if let Some((Some(number), Some(kind), _, _)) = track {
        return CueLine::Track { number, kind };
    }
    if let Some((Some(name), Some(kind), _, _)) = file {
        return CueLine::File { name, kind };
    }
    CueLine::Other
}

// ---------------------------------------------------------------------------
// Putting a sheet together
// ---------------------------------------------------------------------------

/// The content of a file of a CUE sheet.
pub struct FileView {
    pub name: Seq<char>,
    pub tracks: Seq<TrackView>,
}

/// The content of a file.
pub open spec fn file_view(file: CueFile) -> FileView {
    FileView { name: file.name@, tracks: disc::track_views(file.tracks@) }
}

/// The contents of files.
pub open spec fn file_views(files: Seq<CueFile>) -> Seq<FileView> {
    files.map_values(|f: CueFile| file_view(f))
}

/// How far a sheet has come: the finished files, the open file and its open
/// track.
pub struct CueParse {
    pub files: Seq<FileView>,
    pub file: Option<FileView>,
    pub track: Option<TrackView>,
}

impl CueParse {
    /// Nothing yet.
    pub open spec fn start() -> CueParse {
        CueParse { files: Seq::empty(), file: None, track: None }
    }

    /// With the open track closed.
    pub open spec fn close_track(self) -> CueParse {
        match (self.track, self.file) {
            (Some(track), Some(file)) => CueParse {
                files: self.files,
                file: Some(FileView { name: file.name, tracks: file.tracks.push(track) }),
                track: None,
            },
            _ => self,
        }
    }

    /// With the open track and the open file closed.
    pub open spec fn close_file(self) -> CueParse {
        let closed = self.close_track();
        match closed.file {
            Some(file) => CueParse {
                files: closed.files.push(file),
                file: None,
                track: closed.track,
            },
            None => closed,
        }
    }
}

/// What a line makes of a sheet. `upper` is the line's kind word in upper case.
pub open spec fn line_outcome(state: CueParse, line: CueLineView, upper: Seq<char>) -> Result<
    CueParse,
    CueFault,
> {
    match line {
        CueLineView::Index { number, minute, second, frame } => match state.track {
            None => Err(CueFault::MissingTrack),
            Some(track) => match text::u8_of(number) {
                None => Err(CueFault::ParseIntError(number)),
                Some(number) => match msf_outcome(minute, second, frame) {
                    Err(fault) => Err(fault),
                    Ok(position) => Ok(
                        CueParse {
                            files: state.files,
                            file: state.file,
                            track: Some(
                                TrackView {
                                    number: track.number,
                                    track_type: track.track_type,
                                    indices: track.indices.push(TrackIndex { number, position }),
                                },
                            ),
                        },
                    ),
                },
            },
        },
        CueLineView::BareIndex => if state.track is None {
            Err(CueFault::MissingTrack)
        } else {
            Ok(state)
        },
        CueLineView::Track { number, kind } => if state.file is None {
            Err(CueFault::MissingFile)
        } else {
            match (text::u8_of(number), track_type_of(upper)) {
                (None, _) => Err(CueFault::ParseIntError(number)),
                (_, None) => Err(CueFault::InvalidTrackType(kind)),
                (Some(number), Some(track_type)) => Ok(
                    CueParse {
                        files: state.files,
                        file: state.close_track().file,
                        track: Some(TrackView { number, track_type, indices: Seq::empty() }),
                    },
                ),
            }
        },
        CueLineView::File { name, kind } => if upper != "BINARY"@ {
            Err(CueFault::UnsupportedFileType(kind))
        } else {
            Ok(
                CueParse {
                    files: state.close_file().files,
                    file: Some(FileView { name, tracks: Seq::empty() }),
                    track: None,
                },
            )
        },
        CueLineView::Other => Ok(state),
    }
}

/// Puts a sheet together line by line.
pub struct CueParser {
    files: Vec<CueFile>,
    file: Option<CueFile>,
    track: Option<Track>,
}

impl CueParser {
    /// How far the sheet has come.
    pub closed spec fn state(&self) -> CueParse {
        CueParse {
            files: file_views(self.files@),
            file: match self.file {
                None => None,
                Some(file) => Some(file_view(file)),
            },
            track: match self.track {
                None => None,
                Some(track) => Some(track@),
            },
        }
    }

    /// A track is open only in an open file.
    pub closed spec fn wf(&self) -> bool {
        self.track is Some ==> self.file is Some
    }

    /// Starts a sheet.
    pub fn new() -> (parser: CueParser)
        ensures
            parser.wf(),
            parser.state() == CueParse::start(),
    {
        let parser = CueParser { files: Vec::new(), file: None, track: None };
        assert(parser.state().files =~= Seq::empty());
        parser
    }

    /// Closes the open track.
    fn close_track(&mut self)
        requires
            old(self).wf(),
        ensures
            final(self).wf(),
            final(self).track is None,
            final(self).state() == old(self).state().close_track(),
    {
        let track = self.track.take();
        if let Some(track) = track {
            let file = self.file.take();
            if let Some(mut file) = file {
                let ghost before = file.tracks@;
                file.tracks.push(track);
                assert(disc::track_views(file.tracks@) =~= disc::track_views(before).push(track@));
                self.file = Some(file);
            }
        }
    }

    /// Closes the open track and the open file.
    fn close_file(&mut self)
        requires
            old(self).wf(),
        ensures
            final(self).wf(),
            final(self).track is None,
            final(self).file is None,
            final(self).state() == old(self).state().close_file(),
    {
        self.close_track();
        let file = self.file.take();
        if let Some(file) = file {
            let ghost before = self.files@;
            self.files.push(file);
            assert(file_views(self.files@) =~= file_views(before).push(file_view(file)));
        }
    }

    /// Takes in a line. `upper` is the line's kind word in upper case.
    pub fn take_line(&mut self, line: CueLine, upper: &str) -> (r: Result<(), ParseError>)
        requires
            old(self).wf(),
        ensures
            match r {
                Ok(()) => final(self).wf() && line_outcome(old(self).state(), line@, upper@)
                    == Ok::<CueParse, CueFault>(final(self).state()),
                Err(e) => line_outcome(old(self).state(), line@, upper@) == Err::<
                    CueParse,
                    CueFault,
                >(e@),
            },
    {
        match line {
            CueLine::Index { number, minute, second, frame } => {
                let track = self.track.take();
                let mut track = match track {
                    None => return Err(ParseError::MissingTrack),
                    Some(track) => track,
                };
                let number: u8 = match parse_u8(number.as_str()) {
                    None => return Err(ParseError::ParseIntError(number)),
                    Some(n) => n,
                };
                let position = match parse_msf(minute.as_str(), second.as_str(), frame.as_str()) {
                    Err(e) => return Err(e),
                    Ok(position) => position,
                };
                track.indices.push(TrackIndex { number, position });
                self.track = Some(track);
                Ok(())
            },
            CueLine::BareIndex => if self.track.is_none() {
                Err(ParseError::MissingTrack)
            } else {
                Ok(())
            },
            CueLine::Track { number, kind } => {
                self.close_track();
                if self.file.is_none() {
                    return Err(ParseError::MissingFile);
                }
                let number: u8 = match parse_u8(number.as_str()) {
                    None => return Err(ParseError::ParseIntError(number)),
                    Some(n) => n,
                };
                let track_type = match track_type_named(upper) {
                    None => return Err(ParseError::InvalidTrackType(kind)),
                    Some(track_type) => track_type,
                };
                self.track = Some(Track { number, track_type, indices: Vec::new() });
                Ok(())
            },
            CueLine::File { name, kind } => {
                self.close_file();
                if !text::same_text(upper, "BINARY") {
                    return Err(ParseError::UnsupportedFileType(kind));
                }
                let file = CueFile { name, tracks: Vec::new() };
                assert(disc::track_views(file.tracks@) =~= Seq::empty());
                self.file = Some(file);
                Ok(())
            },
            CueLine::Other => Ok(()),
        }
    }

    /// Closes what is open and hands out the files.
    pub fn finish(self) -> (files: Vec<CueFile>)
        requires
            self.wf(),
        ensures
            file_views(files@) == self.state().close_file().files,
    {
        let mut parser = self;
        parser.close_file();
        parser.files
    }
}

// ---------------------------------------------------------------------------
// Whole sheets
// ---------------------------------------------------------------------------

/// What a line of text says.
pub open spec fn line_of(line: Seq<char>) -> CueLineView {
    classified(
        captured(INDEX_PATTERN@, line),
        captured(TRACK_PATTERN@, line),
        captured(FILE_PATTERN@, line),
    )
}

/// What a line of text, with spaces around it, makes of a sheet. Blank lines
/// are skipped.
pub open spec fn text_line_outcome(state: CueParse, raw: Seq<char>) -> Result<
    CueParse,
    CueFault,
> {
    let line = text::trimmed(raw);
    if line.len() == 0 {
        Ok(state)
    } else {
        line_outcome(state, line_of(line), uppercased(line_of(line).kind_word()))
    }
}

/// What the first `n` lines make of a sheet, or what is wrong with the first bad
/// one.
pub open spec fn lines_outcome(lines: Seq<Seq<char>>, n: int) -> Result<CueParse, CueFault>
    decreases n,
{
    if n <= 0 {
        Ok(CueParse::start())
    } else {
        match lines_outcome(lines, n - 1) {
            Err(fault) => Err(fault),
            Ok(state) => text_line_outcome(state, lines[n - 1]),
        }
    }
}

/// The files that a sheet describes, or what is wrong with it.
pub open spec fn sheet_outcome(content: Seq<char>) -> Result<Seq<FileView>, CueFault> {
    let lines = text::lines(content);
    match lines_outcome(lines, lines.len() as int) {
        Err(fault) => Err(fault),
        Ok(state) => Ok(state.close_file().files),
    }
}

proof fn lemma_first_fault(lines: Seq<Seq<char>>, m: int, n: int)
    requires
        0 <= m <= n,
        lines_outcome(lines, m) is Err,
    ensures
        lines_outcome(lines, n) == lines_outcome(lines, m),
    decreases n - m,
{
    if m < n {
        lemma_first_fault(lines, m, n - 1);
    }
}

/// Parses a CUE sheet. Of the name of its source the first 255 characters are
/// kept. A sheet that was written for a disc, or for any list of files, is read
/// back.
pub fn parse_cue(source_filename: &str, content: &str) -> (r: Result<CueSheet, ParseError>)
    ensures
        match r {
            Ok(sheet) => {
                &&& sheet_outcome(content@) == Ok::<Seq<FileView>, CueFault>(
                    file_views(sheet.files@),
                )
                &&& sheet.source_filename@ == if source_filename@.len() <= 255 {
                    source_filename@
                } else {
                    source_filename@.take(255)
                }
            },
            Err(e) => sheet_outcome(content@) == Err::<Seq<FileView>, CueFault>(e@),
        },
        forall|name: Seq<char>, runs: Seq<(u32, SectorType)>|
            content@ == #[trigger] cue_gen::cue_text(name, runs, runs.len() as int)
                && cue_roundtrip::is_readable(name, runs) && cue_roundtrip::name_is_no_index(name)
                ==> r is Ok && file_views(r->Ok_0.files@) == cue_roundtrip::described_file(
                name,
                runs,
            ),
        forall|files: Seq<FileView>|
            content@ == #[trigger] cue_roundtrip::files_text(files)
                && cue_roundtrip::files_are_writable(files) ==> r is Ok && file_views(
                r->Ok_0.files@,
            ) == files,
{
    let index_pattern = compile(INDEX_PATTERN);
    let track_pattern = compile(TRACK_PATTERN);
    let file_pattern = compile(FILE_PATTERN);
    let lines = split_lines(content);
    let ghost raw = text::lines(content@);
    let mut parser = CueParser::new();
    let mut n: usize = 0;
    while n < lines.len()
        invariant
            raw == text::lines(content@),
            lines@.len() == raw.len(),
            forall|i: int| 0 <= i < raw.len() ==> (#[trigger] lines@[i])@ == raw[i],
            n <= raw.len(),
            pattern_of(index_pattern) == INDEX_PATTERN@,
            pattern_of(track_pattern) == TRACK_PATTERN@,
            pattern_of(file_pattern) == FILE_PATTERN@,
            parser.wf(),
            lines_outcome(raw, n as int) == Ok::<CueParse, CueFault>(parser.state()),
            cue_roundtrip::lines_understood(raw, n as int),
        decreases raw.len() - n,
    {
        let trimmed = trim_text(lines[n].as_str());
        if trimmed.as_str().unicode_len() > 0 {
            let index = captures(&index_pattern, trimmed.as_str());
            let track = captures(&track_pattern, trimmed.as_str());
            let file = captures(&file_pattern, trimmed.as_str());
            let line = classify(index, track, file);
            let upper = kind_upper(&line);
            assert(understood(trimmed@));
            if let Err(e) = parser.take_line(line, upper.as_str()) {
                proof {
                    lemma_first_fault(raw, n + 1, raw.len() as int);
                    assert forall|name: Seq<char>, runs: Seq<(u32, SectorType)>|
                        content@ == #[trigger] cue_gen::cue_text(name, runs, runs.len() as int)
                            && cue_roundtrip::is_readable(
                            name,
                            runs,
                        ) implies !cue_roundtrip::name_is_no_index(name) by {
                        cue_roundtrip::lemma_first_lines(name, runs, n + 1);
                    }
                    assert forall|files: Seq<FileView>|
                        content@ == #[trigger] cue_roundtrip::files_text(
                            files,
                        ) implies !cue_roundtrip::files_are_writable(files) by {
                        if cue_roundtrip::files_are_writable(files) {
                            cue_roundtrip::lemma_first_files_lines(files, n + 1);
                        }
                    }
                }
                return Err(e);
            }
        }
        n += 1;
    }
    let files = parser.finish();
    proof {
        assert forall|name: Seq<char>, runs: Seq<(u32, SectorType)>|
            content@ == #[trigger] cue_gen::cue_text(name, runs, runs.len() as int)
                && cue_roundtrip::is_readable(name, runs) && cue_roundtrip::name_is_no_index(
                name,
            ) implies file_views(files@) == cue_roundtrip::described_file(name, runs) by {
            cue_roundtrip::law_written_sheet_is_read_back(name, runs);
        }
        assert forall|described: Seq<FileView>|
            content@ == #[trigger] cue_roundtrip::files_text(described)
                && cue_roundtrip::files_are_writable(described) implies file_views(files@)
            == described by {
            cue_roundtrip::law_files_are_read_back(described);
        }
    }
    Ok(CueSheet { source_filename: take_chars(source_filename, 255), files })
}

/// The kind word of a line in upper case.
fn kind_upper(line: &CueLine) -> (upper: String)
    ensures
        upper@ == uppercased(line@.kind_word()),
        raised(line@.kind_word(), upper@),
{
    match line {
        CueLine::Track { kind, .. } => to_upper(kind.as_str()),
        CueLine::File { kind, .. } => to_upper(kind.as_str()),
        _ => {
            let none = String::new();
            assert(none@ =~= Seq::empty());
            to_upper(none.as_str())
        },
    }
}

// ---------------------------------------------------------------------------
// What holds of all sheets
// ---------------------------------------------------------------------------

/// A position is read back from the digits that it is written with.
pub proof fn law_position_is_read_back(time: MsfTime)
    requires
        time.second < 60,
        time.frame < 75,
    ensures
        msf_outcome(
            text::padded(time.minute as nat),
            text::padded(time.second as nat),
            text::padded(time.frame as nat),
        ) == Ok::<MsfTime, CueFault>(time),
{
    text::law_number_is_read_back(time.minute);
    text::law_number_is_read_back(time.second);
    text::law_number_is_read_back(time.frame);
}

/// Whether all index points of a track are positions of a disc.
pub open spec fn track_in_range(track: TrackView) -> bool {
    forall|i: int|
        0 <= i < track.indices.len() ==> (#[trigger] track.indices[i]).position.second < 60
            && track.indices[i].position.frame < 75
}

/// Whether all index points of a file are positions of a disc.
pub open spec fn file_in_range(file: FileView) -> bool {
    forall|i: int| 0 <= i < file.tracks.len() ==> track_in_range(#[trigger] file.tracks[i])
}

/// Whether all index points of files are positions of a disc.
pub open spec fn files_in_range(files: Seq<FileView>) -> bool {
    forall|i: int| 0 <= i < files.len() ==> file_in_range(#[trigger] files[i])
}

spec fn state_in_range(state: CueParse) -> bool {
    &&& files_in_range(state.files)
    &&& state.file matches Some(file) ==> file_in_range(file)
    &&& state.track matches Some(track) ==> track_in_range(track)
}

proof fn lemma_closing_stays_in_range(state: CueParse)
    requires
        state_in_range(state),
    ensures
        state_in_range(state.close_track()),
        state_in_range(state.close_file()),
{
}

proof fn lemma_lines_stay_in_range(lines: Seq<Seq<char>>, n: int)
    ensures
        lines_outcome(lines, n) matches Ok(state) ==> state_in_range(state),
    decreases n,
{
    if n > 0 {
        lemma_lines_stay_in_range(lines, n - 1);
        if let Ok(state) = lines_outcome(lines, n - 1) {
            lemma_closing_stays_in_range(state);
        }
    }
}

/// Every index point of a sheet that parses is a position of a disc: its seconds
/// are below 60 and its frames below 75.
pub proof fn law_parsed_positions_are_in_range(content: Seq<char>)
    ensures
        sheet_outcome(content) matches Ok(files) ==> files_in_range(files),
{
    let lines = text::lines(content);
    lemma_lines_stay_in_range(lines, lines.len() as int);
    if let Ok(state) = lines_outcome(lines, lines.len() as int) {
        lemma_closing_stays_in_range(state);
    }
}

/// A track needs a file, and an index point needs a track: without them the
/// line is refused, whatever else it says.
pub proof fn law_lines_need_their_context(
    state: CueParse,
    number: Seq<char>,
    kind: Seq<char>,
    minute: Seq<char>,
    second: Seq<char>,
    frame: Seq<char>,
    upper: Seq<char>,
)
    ensures
        state.file is None ==> line_outcome(state, CueLineView::Track { number, kind }, upper)
            == Err::<CueParse, CueFault>(CueFault::MissingFile),
        state.track is None ==> line_outcome(
            state,
            CueLineView::Index { number, minute, second, frame },
            upper,
        ) == Err::<CueParse, CueFault>(CueFault::MissingTrack),
{
}

/// The names on the lines that open files, among the first `n` lines.
pub open spec fn file_names(lines: Seq<Seq<char>>, n: int) -> Seq<Seq<char>>
    decreases n,
{
    if n <= 0 {
        Seq::empty()
    } else {
        let line = text::trimmed(lines[n - 1]);
        match line_of(line) {
            CueLineView::File { name, .. } if line.len() > 0 => file_names(lines, n - 1).push(name),
            _ => file_names(lines, n - 1),
        }
    }
}

/// Whether files have the given names, in order.
pub open spec fn are_named(files: Seq<FileView>, names: Seq<Seq<char>>) -> bool {
    &&& files.len() == names.len()
    &&& forall|k: int| 0 <= k < files.len() ==> (#[trigger] files[k]).name == names[k]
}

proof fn lemma_files_are_named(lines: Seq<Seq<char>>, n: int)
    ensures
        lines_outcome(lines, n) matches Ok(state) ==> {
            &&& are_named(state.close_file().files, file_names(lines, n))
            &&& state.track is Some ==> state.file is Some
        },
    decreases n,
{
    if n > 0 {
        lemma_files_are_named(lines, n - 1);
        if let (Ok(before), Ok(after)) = (lines_outcome(lines, n - 1), lines_outcome(lines, n)) {
            let old_files = before.close_file().files;
            let new_files = after.close_file().files;
            let line = text::trimmed(lines[n - 1]);
            if line.len() > 0 && line_of(line) is File {
                assert(new_files =~= old_files.push(new_files.last()));
            } else {
                assert(new_files.len() == old_files.len());
                assert forall|k: int| 0 <= k < new_files.len() implies (
                #[trigger] new_files[k]).name == old_files[k].name by {}
            }
        }
    }
}

/// Every line that opens a file gives one file, in order: the file that belongs to
/// the k-th such line bears the name on that line. No other line gives a file.
pub proof fn law_each_file_line_gives_a_file(content: Seq<char>)
    ensures
        sheet_outcome(content) matches Ok(files) ==> are_named(
            files,
            file_names(text::lines(content), text::lines(content).len() as int),
        ),
{
    lemma_files_are_named(text::lines(content), text::lines(content).len() as int);
}

/// What a line adds leaves all that was read before as it is: finished files stay,
/// an index point only lengthens the open track, and a track only closes the one
/// before it.
pub proof fn law_what_was_read_stays(state: CueParse, line: CueLineView, upper: Seq<char>)
    requires
        state.track is Some ==> state.file is Some,
    ensures
        line_outcome(state, line, upper) matches Ok(next) ==> {
            let before = state.close_file().files;
            let after = next.close_file().files;
            &&& next.track is Some ==> next.file is Some
            &&& line is File ==> after == before.push(
                FileView { name: line->File_name, tracks: Seq::empty() },
            )
            &&& line is Track ==> after.drop_last() == before.drop_last() && after.last().name
                == before.last().name && after.last().tracks.drop_last() == before.last().tracks
                && after.last().tracks.last().indices.len() == 0
            &&& line is Index ==> after.drop_last() == before.drop_last() && after.last().name
                == before.last().name && after.last().tracks.drop_last()
                == before.last().tracks.drop_last() && after.last().tracks.last().number
                == before.last().tracks.last().number && after.last().tracks.last().track_type
                == before.last().tracks.last().track_type
                && after.last().tracks.last().indices.drop_last()
                == before.last().tracks.last().indices
            &&& line is Other || line is BareIndex ==> after == before
        },
{
    if let Ok(next) = line_outcome(state, line, upper) {
        let before = state.close_file().files;
        let after = next.close_file().files;
        if line is File {
            assert(after =~= before.push(
                FileView { name: line->File_name, tracks: Seq::empty() },
            ));
        } else if line is Track {
            assert(after.drop_last() =~= before.drop_last());
            assert(after.last().tracks.drop_last() =~= before.last().tracks);
        } else if line is Index {
            assert(after.drop_last() =~= before.drop_last());
            assert(after.last().tracks.drop_last() =~= before.last().tracks.drop_last());
            assert(after.last().tracks.last().indices.drop_last()
                =~= before.last().tracks.last().indices);
        }
    }
}

/// Lines that cannot be taken are refused, each with the word that is wrong: a file
/// of another kind than binary, a number beyond a byte, a track type that there is
/// none of, and seconds or frames beyond the end of their minute or second.
pub proof fn law_wrong_words_are_reported(
    state: CueParse,
    number: Seq<char>,
    kind: Seq<char>,
    name: Seq<char>,
    minute: Seq<char>,
    second: Seq<char>,
    frame: Seq<char>,
    upper: Seq<char>,
)
    ensures
        upper != "BINARY"@ ==> line_outcome(state, CueLineView::File { name, kind }, upper)
            == Err::<CueParse, CueFault>(CueFault::UnsupportedFileType(kind)),
        state.file is Some && text::u8_of(number) is None ==> line_outcome(
            state,
            CueLineView::Track { number, kind },
            upper,
        ) == Err::<CueParse, CueFault>(CueFault::ParseIntError(number)),
        state.file is Some && text::u8_of(number) is Some && upper != "AUDIO"@ && upper
            != "MODE1/2352"@ && upper != "MODE2/2352"@ ==> line_outcome(
            state,
            CueLineView::Track { number, kind },
            upper,
        ) == Err::<CueParse, CueFault>(CueFault::InvalidTrackType(kind)),
        state.track is Some && text::u8_of(number) is None ==> line_outcome(
            state,
            CueLineView::Index { number, minute, second, frame },
            upper,
        ) == Err::<CueParse, CueFault>(CueFault::ParseIntError(number)),
        state.track is Some && text::u8_of(number) is Some && text::u8_of(minute) is Some && (
        text::u8_of(second) matches Some(s) && text::u8_of(frame) matches Some(f) && (s >= 60 || f
            >= 75)) ==> line_outcome(
            state,
            CueLineView::Index { number, minute, second, frame },
            upper,
        ) == Err::<CueParse, CueFault>(CueFault::InvalidTimestamp(minute, second, frame)),
{
}

/// Whether what is captured in a line and what becomes of its kind word bear out
/// what is known of plain lines.
pub open spec fn understood(line: Seq<char>) -> bool {
    &&& captures_plainly(INDEX_PATTERN@, line, captured(INDEX_PATTERN@, line))
    &&& captures_plainly(TRACK_PATTERN@, line, captured(TRACK_PATTERN@, line))
    &&& captures_plainly(FILE_PATTERN@, line, captured(FILE_PATTERN@, line))
    &&& raised(line_of(line).kind_word(), uppercased(line_of(line).kind_word()))
}

/// Whether a line says nothing: it is blank, or neither an index point nor a track
/// nor a file.
pub open spec fn is_idle(raw: Seq<char>) -> bool {
    let line = text::trimmed(raw);
    line.len() == 0 || line_of(line) is Other
}

/// The lines that say something, without the spaces around them.
pub open spec fn telling(lines: Seq<Seq<char>>) -> Seq<Seq<char>>
    decreases lines.len(),
{
    if lines.len() == 0 {
        Seq::empty()
    } else if is_idle(lines.last()) {
        telling(lines.drop_last())
    } else {
        telling(lines.drop_last()).push(text::trimmed(lines.last()))
    }
}

proof fn lemma_lines_outcome_prefix(a: Seq<Seq<char>>, b: Seq<Seq<char>>, n: int)
    requires
        n <= a.len(),
        n <= b.len(),
        forall|i: int| 0 <= i < n ==> a[i] == b[i],
    ensures
        lines_outcome(a, n) == lines_outcome(b, n),
    decreases n,
{
    if n > 0 {
        lemma_lines_outcome_prefix(a, b, n - 1);
        assert(a[n - 1] == b[n - 1]);
    }
}

proof fn lemma_telling(lines: Seq<Seq<char>>)
    ensures
        lines_outcome(lines, lines.len() as int) == lines_outcome(
            telling(lines),
            telling(lines).len() as int,
        ),
    decreases lines.len(),
{
    if lines.len() > 0 {
        let front = lines.drop_last();
        let n = front.len() as int;
        lemma_telling(front);
        lemma_lines_outcome_prefix(lines, front, n);
        text::law_trimming_twice_is_trimming_once(lines.last());
        if !is_idle(lines.last()) {
            let all = telling(lines);
            let fewer = telling(front);
            assert(all.drop_last() =~= fewer);
            assert(all.last() == text::trimmed(lines.last()));
            lemma_lines_outcome_prefix(all, fewer, fewer.len() as int);
        }
    }
}

proof fn lemma_telling_concat(a: Seq<Seq<char>>, b: Seq<Seq<char>>)
    ensures
        telling(a + b) == telling(a) + telling(b),
    decreases b.len(),
{
    if b.len() == 0 {
        assert(a + b =~= a);
        assert(telling(a) + telling(b) =~= telling(a));
    } else {
        assert((a + b).drop_last() =~= a + b.drop_last());
        assert((a + b).last() == b.last());
        lemma_telling_concat(a, b.drop_last());
        assert(telling(a + b) =~= telling(a) + telling(b));
    }
}

/// Only the lines that say something count, and of those not the spaces around
/// them: two sheets in which they are the same are read alike.
pub proof fn law_only_telling_lines_count(one: Seq<char>, other: Seq<char>)
    ensures
        telling(text::lines(one)) == telling(text::lines(other)) ==> sheet_outcome(one)
            == sheet_outcome(other),
{
    lemma_telling(text::lines(one));
    lemma_telling(text::lines(other));
}

proof fn lemma_one_telling_line(line: Seq<char>)
    ensures
        telling(seq![line]) == if is_idle(line) {
            Seq::empty()
        } else {
            seq![text::trimmed(line)]
        },
{
    assert(seq![line].drop_last() =~= Seq::empty());
    assert(telling(seq![line].drop_last()).len() == 0);
    assert(telling(seq![line]) =~= if is_idle(line) {
        Seq::empty()
    } else {
        seq![text::trimmed(line)]
    });
}

proof fn lemma_without_return(line: Seq<char>)
    ensures
        text::trimmed(text::without_return(line)) == text::trimmed(line),
{
    if line.len() > 0 && line.last() == '\r' {
        let back = seq!['\r'];
        let rest = line.drop_last();
        text::law_spaces_around_do_not_matter(Seq::empty(), rest, back);
        assert(Seq::<char>::empty() + rest + back =~= line);
    }
}

/// What a line between others adds to what counts.
proof fn lemma_line_between(front: Seq<char>, line: Seq<char>, back: Seq<char>)
    requires
        text::ends_line(front),
        !line.contains('\n'),
    ensures
        telling(text::lines(front + line.push('\n') + back)) == telling(text::lines(front)) + (
        if is_idle(line) {
            Seq::empty()
        } else {
            seq![text::trimmed(line)]
        }) + telling(text::lines(back)),
{
    let middle = line.push('\n');
    assert(front + middle + back =~= (front + middle) + back);
    assert((front + middle).last() == '\n');
    text::lemma_lines_concat(front + middle, back);
    text::lemma_lines_concat(front, middle);
    text::lemma_one_line(line);
    lemma_telling_concat(text::lines(front + middle), text::lines(back));
    lemma_telling_concat(text::lines(front), text::lines(middle));
    lemma_one_telling_line(text::without_return(line));
    lemma_without_return(line);
}

/// A line that says nothing, a remark or a blank line, can stand anywhere in a
/// sheet.
pub proof fn law_idle_lines_can_be_added(front: Seq<char>, line: Seq<char>, back: Seq<char>)
    requires
        text::ends_line(front),
        !line.contains('\n'),
    ensures
        is_idle(line) ==> sheet_outcome(front + line.push('\n') + back) == sheet_outcome(
            front + back,
        ),
{
    lemma_line_between(front, line, back);
    text::lemma_lines_concat(front, back);
    lemma_telling_concat(text::lines(front), text::lines(back));
    law_only_telling_lines_count(front + line.push('\n') + back, front + back);
    if is_idle(line) {
        assert(telling(text::lines(front)) + Seq::empty() + telling(text::lines(back)) =~= telling(
            text::lines(front),
        ) + telling(text::lines(back)));
    }
}

/// Blank lines can stand anywhere in a sheet.
pub proof fn law_blank_lines_can_be_added(front: Seq<char>, line: Seq<char>, back: Seq<char>)
    requires
        text::ends_line(front),
        !line.contains('\n'),
        text::is_blank(line),
    ensures
        sheet_outcome(front + line.push('\n') + back) == sheet_outcome(front + back),
{
    text::law_spaces_around_do_not_matter(line, Seq::empty(), Seq::empty());
    assert(line + Seq::<char>::empty() + Seq::<char>::empty() =~= line);
    law_idle_lines_can_be_added(front, line, back);
}

/// White space around a line makes no difference, be it indentation or what
/// stands in front of the line feed.
pub proof fn law_lines_can_be_indented(
    front: Seq<char>,
    indent: Seq<char>,
    line: Seq<char>,
    tail: Seq<char>,
    back: Seq<char>,
)
    requires
        text::ends_line(front),
        text::is_blank(indent),
        text::is_blank(tail),
        !indent.contains('\n'),
        !line.contains('\n'),
        !tail.contains('\n'),
    ensures
        sheet_outcome(front + (indent + line + tail).push('\n') + back) == sheet_outcome(
            front + line.push('\n') + back,
        ),
{
    let longer = indent + line + tail;
    assert(!longer.contains('\n')) by {
        if longer.contains('\n') {
            let i = choose|i: int| 0 <= i < longer.len() && longer[i] == '\n';
            if i < indent.len() {
                assert(indent[i] == '\n');
            } else if i < indent.len() + line.len() {
                assert(line[i - indent.len()] == '\n');
            } else {
                assert(tail[i - indent.len() - line.len()] == '\n');
            }
        }
    }
    text::law_spaces_around_do_not_matter(indent, line, tail);
    lemma_line_between(front, line, back);
    lemma_line_between(front, longer, back);
    law_only_telling_lines_count(
        front + longer.push('\n') + back,
        front + line.push('\n') + back,
    );
}

/// The last line may go without its line feed.
pub proof fn law_last_line_feed_can_be_left_out(front: Seq<char>, line: Seq<char>)
    requires
        text::ends_line(front),
        !line.contains('\n'),
    ensures
        sheet_outcome(front + line) == sheet_outcome(front + line.push('\n')),
{
    let none = Seq::<char>::empty();
    lemma_line_between(front, line, none);
    assert(front + line.push('\n') + none =~= front + line.push('\n'));
    assert(text::lines(none).len() == 0);
    text::lemma_lines_concat(front, line);
    text::lemma_bare_line(line);
    lemma_telling_concat(text::lines(front), text::lines(line));
    lemma_one_telling_line(line);
    assert(telling(text::lines(front + line)) =~= telling(
        text::lines(front + line.push('\n')),
    )) by {
        if line.len() == 0 {
            assert(text::trimmed(line).len() == 0);
        }
    }
    law_only_telling_lines_count(front + line, front + line.push('\n'));
}

/// The first line that is wrong decides what is reported of a sheet, whatever
/// follows it.
pub proof fn law_first_fault_is_reported(lines: Seq<Seq<char>>, n: int)
    requires
        0 <= n <= lines.len(),
        lines_outcome(lines, n) is Err,
    ensures
        lines_outcome(lines, lines.len() as int) == lines_outcome(lines, n),
{
    lemma_first_fault(lines, n, lines.len() as int);
}

/// A line that could be taken in several ways is taken for an index point before a
/// track, and for a track before a file; one that is none of them says nothing.
pub proof fn law_index_points_come_first(
    index: Option<GroupTexts>,
    track: Option<GroupTexts>,
    file: Option<GroupTexts>,
)
    ensures
        index is Some ==> classified(index, track, file) is Index || classified(index, track, file)
            is BareIndex,
        index matches Some((Some(number), Some(minute), Some(second), Some(frame))) ==> classified(
            index,
            track,
            file,
        ) == (CueLineView::Index { number, minute, second, frame }),
        index is None ==> (track matches Some((Some(number), Some(kind), _, _)) ==> classified(
            index,
            track,
            file,
        ) == (CueLineView::Track { number, kind })),
        index is None && track is None ==> (file matches Some((Some(name), Some(kind), _, _))
            ==> classified(index, track, file) == (CueLineView::File { name, kind })),
        index is None && track is None && file is None ==> classified(index, track, file) is Other,
{
}

} // verus!
