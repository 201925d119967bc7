use sprite_shrink::cue_gen::{generate_cue_string, has_cue_sheet, TrackMode};
use sprite_shrink::cue_parser::{
    classify, parse_cue, parse_msf, parse_track_type, CueLine, CueParser, ParseError,
};
use sprite_shrink::disc::{DiscManifest, RleSectorMap, SectorType, TrackType};

fn manifest_with_runs(runs: Vec<(u32, SectorType)>) -> DiscManifest<u64> {
    DiscManifest {
        lba_map: Vec::new(),
        rle_sector_map: RleSectorMap { runs },
        audio_block_map: Vec::new(),
        data_stream_layout: Vec::new(),
        subheader_index: Vec::new(),
        disc_exception_index: Vec::new(),
        integrity_hash: 0,
    }
}

#[test]
fn generate_cue_string_emits_track_for_each_mode_change() {
    let manifest = manifest_with_runs(vec![
        (150, SectorType::Mode1),
        (75, SectorType::Audio),
        (75, SectorType::Mode2Form1),
    ]);

    let cue = generate_cue_string(&manifest, "disc.bin").unwrap();

    assert!(cue.contains("FILE \"disc.bin\" BINARY"));
    assert!(cue.contains("  TRACK 01 MODE1/2352"));
    assert!(cue.contains("    INDEX 01 00:00:00"));
    assert!(cue.contains("  TRACK 02 AUDIO"));
    assert!(cue.contains("    INDEX 01 00:02:00"));
    assert!(cue.contains("  TRACK 03 MODE2/2352"));
    assert!(cue.contains("    INDEX 01 00:03:00"));
}

#[test]
fn generate_cue_string_writes_index_zero_for_pregap() {
    let manifest =
        manifest_with_runs(vec![(75, SectorType::PregapAudio), (75, SectorType::Audio)]);

    let cue = generate_cue_string(&manifest, "disc.bin").unwrap();

    assert!(cue.contains("  TRACK 01 AUDIO"));
    assert!(cue.contains("    INDEX 00 00:00:00"));
    assert!(cue.contains("    INDEX 01 00:01:00"));
}

#[test]
fn generate_cue_string_skips_none_sectors_but_advances_time() {
    let manifest = manifest_with_runs(vec![(75, SectorType::Unmapped), (75, SectorType::Mode1)]);

    let cue = generate_cue_string(&manifest, "disc.bin").unwrap();

    assert!(cue.contains("  TRACK 01 MODE1/2352"));
    assert!(cue.contains("    INDEX 01 00:01:00"));
}

#[test]
fn parse_cue_accepts_multiple_files_and_tracks() {
    let content = r#"
            FILE "disc01.bin" BINARY
              TRACK 01 MODE1/2352
                INDEX 01 00:00:00
              TRACK 02 AUDIO
                INDEX 00 00:02:00
                INDEX 01 00:04:00
            FILE "disc02.bin" BINARY
              TRACK 03 MODE2/2352
                INDEX 01 01:00:00
        "#;

    let sheet = parse_cue("source.cue", content).unwrap();

    assert_eq!(sheet.source_filename, "source.cue");
    assert_eq!(sheet.files.len(), 2);
    assert_eq!(sheet.files[0].name, "disc01.bin");
    assert_eq!(sheet.files[0].tracks.len(), 2);
    assert_eq!(sheet.files[0].tracks[0].track_type, TrackType::Mode1_2352);
    assert_eq!(sheet.files[0].tracks[1].track_type, TrackType::Audio);
    assert_eq!(sheet.files[0].tracks[1].indices[0].position.to_total_frames(), 150);
    assert_eq!(sheet.files[0].tracks[1].indices[1].position.to_total_frames(), 300);
    assert_eq!(sheet.files[1].tracks[0].track_type, TrackType::Mode2_2352);
}

#[test]
fn parse_cue_rejects_track_before_file() {
    let err = parse_cue("bad.cue", "TRACK 01 AUDIO").unwrap_err();
    assert_eq!(err, ParseError::MissingFile);
}

#[test]
fn parse_cue_rejects_index_before_track() {
    let content = r#"
            FILE "disc.bin" BINARY
            INDEX 01 00:00:00
        "#;

    let err = parse_cue("bad.cue", content).unwrap_err();
    assert_eq!(err, ParseError::MissingTrack);
}

#[test]
fn parse_cue_rejects_unsupported_file_type() {
    let err = parse_cue("bad.cue", r#"FILE "disc.wav" WAVE"#).unwrap_err();
    assert_eq!(err, ParseError::UnsupportedFileType("WAVE".to_string()));
}

#[test]
fn parse_cue_rejects_invalid_msf_bounds() {
    let content = r#"
            FILE "disc.bin" BINARY
              TRACK 01 AUDIO
                INDEX 01 00:60:00
        "#;

    let err = parse_cue("bad.cue", content).unwrap_err();
    assert_eq!(
        err,
        ParseError::InvalidTimestamp("00".to_string(), "60".to_string(), "00".to_string())
    );
}

#[test]
fn parse_msf_converts_valid_timestamp_to_frames() {
    let msf = parse_msf("01", "02", "03").unwrap();
    assert_eq!(msf.minute, 1);
    assert_eq!(msf.second, 2);
    assert_eq!(msf.frame, 3);
    assert_eq!(msf.to_total_frames(), 4653);
}

// --- further cases ---

#[test]
fn whole_sheet_is_written() {
    let manifest = manifest_with_runs(vec![
        (150, SectorType::Mode1),
        (10, SectorType::Mode1Exception),
        (75, SectorType::PregapAudio),
        (4500, SectorType::Audio),
        (1, SectorType::ZeroedMode2Data),
    ]);
    assert_eq!(
        generate_cue_string(&manifest, "x.bin").unwrap(),
        "FILE \"x.bin\" BINARY\n  TRACK 01 MODE1/2352\n    INDEX 01 00:00:00\n  TRACK 02 AUDIO\n    \
         INDEX 00 00:02:10\n    INDEX 01 00:03:10\n  TRACK 03 MODE2/2352\n    INDEX 01 01:03:10\n"
    );
    assert_eq!(TrackMode::from_sector_type(SectorType::Unmapped), None);
}

#[test]
fn written_sheet_is_parsed_back() {
    let manifest = manifest_with_runs(vec![
        (16, SectorType::Mode1),
        (75, SectorType::PregapAudio),
        (200, SectorType::Audio),
    ]);
    let cue = generate_cue_string(&manifest, "some disc.bin").unwrap();
    let sheet = parse_cue("s.cue", &cue).unwrap();
    assert_eq!(sheet.files.len(), 1);
    assert_eq!(sheet.files[0].name, "some disc.bin");
    let tracks = &sheet.files[0].tracks;
    assert_eq!(tracks.len(), 2);
    assert_eq!((tracks[0].number, tracks[0].track_type), (1, TrackType::Mode1_2352));
    assert_eq!((tracks[1].number, tracks[1].track_type), (2, TrackType::Audio));
    let points: Vec<(u8, u32)> =
        tracks[1].indices.iter().map(|i| (i.number, i.position.to_total_frames())).collect();
    assert_eq!(points, vec![(0, 16), (1, 91)]);
}

#[test]
fn case_of_kinds_does_not_matter() {
    assert_eq!(parse_track_type("Audio").unwrap(), TrackType::Audio);
    assert_eq!(parse_track_type("mode2/2352").unwrap(), TrackType::Mode2_2352);
    assert_eq!(
        parse_track_type("MODE1/2048").unwrap_err(),
        ParseError::InvalidTrackType("MODE1/2048".to_string())
    );
    let sheet = parse_cue("s", "FILE \"a\" binary\r\nTRACK 1 audio\r\nINDEX 01 00:00:01\r\n").unwrap();
    assert_eq!(sheet.files[0].tracks[0].indices[0].position.frame, 1);
}

#[test]
fn numbers_that_do_not_fit_are_reported() {
    let head = "FILE \"a\" BINARY\n";
    assert_eq!(
        parse_cue("s", &format!("{}TRACK 256 AUDIO", head)).unwrap_err(),
        ParseError::ParseIntError("256".to_string())
    );
    assert_eq!(
        parse_cue("s", &format!("{}TRACK 01 AUDIO\nINDEX 999 00:00:00", head)).unwrap_err(),
        ParseError::ParseIntError("999".to_string())
    );
    assert_eq!(
        parse_cue("s", &format!("{}TRACK 01 BOOKS", head)).unwrap_err(),
        ParseError::InvalidTrackType("BOOKS".to_string())
    );
    assert_eq!(
        parse_cue("s", &format!("{}TRACK 01 AUDIO\nINDEX 01 00:00:75", head)).unwrap_err(),
        ParseError::InvalidTimestamp("00".to_string(), "00".to_string(), "75".to_string())
    );
    assert_eq!(parse_msf("x", "0", "0").unwrap_err(), ParseError::ParseIntError("x".to_string()));
    assert_eq!(parse_msf("0", "", "0").unwrap_err(), ParseError::ParseIntError("".to_string()));
    assert_eq!(parse_msf("0", "0", "300").unwrap_err(), ParseError::ParseIntError("300".to_string()));
}

#[test]
fn other_lines_are_passed_over() {
    let sheet = parse_cue(
        "s",
        "REM COMMENT\nFILE \"a\" BINARY\nPERFORMER \"x\"\nTRACK 01 AUDIO\nFLAGS DCP\nINDEX 01 00:00:00",
    )
    .unwrap();
    assert_eq!(sheet.files.len(), 1);
    assert_eq!(sheet.files[0].tracks[0].indices.len(), 1);
    assert_eq!(parse_cue("s", "").unwrap().files.len(), 0);
}

#[test]
fn long_source_names_are_cut() {
    let name = "n".repeat(300);
    assert_eq!(parse_cue(&name, "").unwrap().source_filename, "n".repeat(255));
    let name = "\u{e9}".repeat(256);
    assert_eq!(parse_cue(&name, "").unwrap().source_filename.chars().count(), 255);
}

#[test]
fn lines_are_taken_by_their_groups() {
    let s = |t: &str| Some(t.to_string());
    assert_eq!(
        classify(Some((s("01"), s("02"), s("03"), s("04"))), None, None),
        CueLine::Index {
            number: "01".to_string(),
            minute: "02".to_string(),
            second: "03".to_string(),
            frame: "04".to_string(),
        }
    );
    assert_eq!(classify(Some((s("01"), None, s("03"), s("04"))), None, None), CueLine::BareIndex);
    assert_eq!(
        classify(None, Some((s("01"), None, None, None)), Some((s("f"), s("BINARY"), None, None))),
        CueLine::File { name: "f".to_string(), kind: "BINARY".to_string() }
    );
    assert_eq!(classify(None, None, None), CueLine::Other);
}

#[test]
fn parser_goes_line_by_line() {
    let mut parser = CueParser::new();
    assert_eq!(parser.take_line(CueLine::BareIndex, ""), Err(ParseError::MissingTrack));
    let file = CueLine::File { name: "f".to_string(), kind: "Binary".to_string() };
    assert_eq!(parser.take_line(file, "BINARY"), Ok(()));
    let track = CueLine::Track { number: "+7".to_string(), kind: "Audio".to_string() };
    assert_eq!(parser.take_line(track, "AUDIO"), Ok(()));
    let files = parser.finish();
    assert_eq!(files.len(), 1);
    assert_eq!(files[0].tracks[0].number, 7);
}

#[test]
fn sheets_number_up_to_255_tracks() {
    let gaps = |n: usize| manifest_with_runs(vec![(1, SectorType::PregapAudio); n]);
    assert!(has_cue_sheet(&gaps(0)));
    assert!(has_cue_sheet(&gaps(255)));
    assert!(!has_cue_sheet(&gaps(256)));
    assert!(!has_cue_sheet(&manifest_with_runs(vec![
        (u32::MAX, SectorType::Audio),
        (1, SectorType::Audio),
    ])));
    let sheet = generate_cue_string(&gaps(255), "d.bin").unwrap();
    assert!(sheet.ends_with("  TRACK 255 AUDIO\n    INDEX 00 00:03:29\n"));
}

#[test]
fn written_sheet_with_every_kind_of_line_is_read_back() {
    let manifest = manifest_with_runs(vec![
        (150, SectorType::Mode1),
        (10, SectorType::Mode1Exception),
        (75, SectorType::PregapAudio),
        (4500, SectorType::Audio),
        (5, SectorType::Unmapped),
        (1, SectorType::ZeroedMode2Data),
        (445258, SectorType::Mode2Form1),
        (1, SectorType::Audio),
    ]);
    let cue = generate_cue_string(&manifest, "A Disc (EU) [INDEX].bin").unwrap();
    let sheet = parse_cue("s.cue", &cue).unwrap();
    assert_eq!(sheet.files.len(), 1);
    assert_eq!(sheet.files[0].name, "A Disc (EU) [INDEX].bin");
    let found: Vec<(u8, TrackType, Vec<(u8, u32)>)> = sheet.files[0]
        .tracks
        .iter()
        .map(|t| {
            let points = t.indices.iter().map(|i| (i.number, i.position.to_total_frames()));
            (t.number, t.track_type, points.collect())
        })
        .collect();
    assert_eq!(
        found,
        vec![
            (1, TrackType::Mode1_2352, vec![(1, 0)]),
            (2, TrackType::Audio, vec![(0, 160), (1, 235)]),
            (3, TrackType::Mode2_2352, vec![(1, 4740)]),
            (4, TrackType::Audio, vec![(1, 449999)]),
        ]
    );
}

#[test]
fn written_tracks_beyond_99_are_read_back() {
    let cue =
        generate_cue_string(&manifest_with_runs(vec![(1, SectorType::PregapAudio); 255]), "d")
            .unwrap();
    let sheet = parse_cue("s", &cue).unwrap();
    let numbers: Vec<u8> = sheet.files[0].tracks.iter().map(|t| t.number).collect();
    assert_eq!(numbers, (1..=255).collect::<Vec<u8>>());
}

#[test]
fn sheets_outside_the_format_are_not_read_back() {
    let late = manifest_with_runs(vec![(450000, SectorType::Mode1), (1, SectorType::Audio)]);
    let cue = generate_cue_string(&late, "d.bin").unwrap();
    assert!(cue.ends_with("INDEX 01 100:00:00\n"));
    assert_eq!(parse_cue("s", &cue).unwrap().files[0].tracks[1].indices.len(), 0);
    let one = manifest_with_runs(vec![(1, SectorType::Audio)]);
    for name in ["", "a\"b", "a\nb"] {
        let cue = generate_cue_string(&one, name).unwrap();
        assert_eq!(parse_cue("s", &cue).unwrap_err(), ParseError::MissingFile);
    }
    let cue = generate_cue_string(&one, "INDEX 01 00:00:00").unwrap();
    assert_eq!(parse_cue("s", &cue).unwrap_err(), ParseError::MissingTrack);
}

#[test]
fn idle_lines_and_spaces_make_no_difference() {
    let lines = ["FILE \"a b\" BINARY", "TRACK 01 AUDIO", "INDEX 00 00:00:00", "INDEX 01 00:02:00"];
    let plain = parse_cue("s", &lines.join("\n")).unwrap();
    assert_eq!(plain.files[0].tracks[0].indices.len(), 2);
    for idle in ["", " \t ", "REM a remark", "  FLAGS DCP", "CATALOG 123", "INDEX 01", "\u{3000}"] {
        for at in 0..=lines.len() {
            let mut longer: Vec<&str> = lines.to_vec();
            longer.insert(at, idle);
            assert_eq!(parse_cue("s", &longer.join("\n")).unwrap(), plain);
            assert_eq!(parse_cue("s", &(longer.join("\r\n") + "\r\n")).unwrap(), plain);
        }
    }
    let indented: String = lines.iter().map(|l| format!(" \t{}\u{a0} \n", l)).collect();
    assert_eq!(parse_cue("s", &indented).unwrap(), plain);
    let error = parse_cue("s", "\nREM\n  TRACK 01 AUDIO  \n\n").unwrap_err();
    assert_eq!(error, parse_cue("s", "TRACK 01 AUDIO").unwrap_err());
}
