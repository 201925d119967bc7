use std::collections::{HashMap, VecDeque};

use sprite_shrink::assembly::{
    can_assemble, verify_disc_integrity, write_disc, DiscTables, SectorWriter,
};
use sprite_shrink::blocks::{audio_segments, build_block_map, is_countable};
use sprite_shrink::disc::{
    ContentBlock, CueFile, CueSheet, DataChunkLayout, DiscManifest, MsfTime, RleSectorMap,
    SectorMap, SectorType, SubHeaderEntry, Track, TrackIndex, TrackType,
};
use sprite_shrink::ecc::{calc_ecc_bitwise, calc_ecc_simd_inplace, edc_of};
use sprite_shrink::error::{AnalysisError, SpriteShrinkCDError};
use sprite_shrink::hashing::{generate_sha_512, Hashable};
use sprite_shrink::mapper::{
    analyze_and_map_disc, from_bcd, normalize_cue_sheet, rle_decode_map, rle_encode_map,
    ExceptionRegistry, MapperError, SectorAnalysis, SectorDataProvider, SubheaderRegistry,
};
use sprite_shrink::reconstruction::{
    build_decoded_map, drain_buffer, expand_exception_index, expand_sector_map,
    expand_subheader_map, rebuild_sector_bitwise, rebuild_sector_simd, to_bcd,
    ReconstructionError,
};

#[test]
fn rle_encode_map_returns_empty_runs_for_empty_sector_map() {
    let encoded = rle_encode_map(&SectorMap { sectors: Vec::new() });
    assert!(encoded.runs.is_empty());
}

#[test]
fn rle_encode_map_groups_adjacent_equal_sector_types() {
    let sector_map = SectorMap {
        sectors: vec![
            SectorType::Mode1,
            SectorType::Mode1,
            SectorType::Audio,
            SectorType::Audio,
            SectorType::Audio,
            SectorType::Mode2Form1,
        ],
    };

    let encoded = rle_encode_map(&sector_map);

    assert_eq!(
        encoded.runs,
        vec![(2, SectorType::Mode1), (3, SectorType::Audio), (1, SectorType::Mode2Form1),]
    );
}

#[test]
fn rle_decode_map_expands_runs_to_original_sector_map() {
    let encoded = RleSectorMap {
        runs: vec![
            (2, SectorType::Mode1),
            (1, SectorType::PregapAudio),
            (3, SectorType::Mode2Form2),
        ],
    };

    let decoded = rle_decode_map(&encoded);

    assert_eq!(
        decoded.sectors,
        vec![
            SectorType::Mode1,
            SectorType::Mode1,
            SectorType::PregapAudio,
            SectorType::Mode2Form2,
            SectorType::Mode2Form2,
            SectorType::Mode2Form2,
        ]
    );
}

#[test]
fn expand_exception_index_places_exception_ids_by_sector() {
    let lookup = expand_exception_index(&[(0, 11), (3, 44)], 5);
    assert_eq!(lookup, vec![Some(11), None, None, Some(44), None]);
}

#[test]
fn expand_sector_map_repeats_each_run() {
    let rle = RleSectorMap { runs: vec![(1, SectorType::Audio), (2, SectorType::Mode1)] };

    assert_eq!(
        expand_sector_map(&rle),
        vec![SectorType::Audio, SectorType::Mode1, SectorType::Mode1]
    );
}

#[test]
fn expand_subheader_map_clamps_entries_to_total_sectors() {
    let index = vec![
        SubHeaderEntry { start_lba: 1, count: 2, data_id: 7 },
        SubHeaderEntry { start_lba: 4, count: 3, data_id: 9 },
    ];

    let map = expand_subheader_map(&index, 5);

    assert_eq!(map, vec![None, Some(7), Some(7), None, Some(9)]);
}

// --- sectors ---

fn user(len: usize) -> Vec<u8> {
    (0..len).map(|i| (i * 7 + 3) as u8).collect()
}

fn fingerprint(bytes: &[u8]) -> u64 {
    let mut h: u64 = 0xcbf29ce484222325;
    for b in bytes {
        h = (h ^ *b as u64).wrapping_mul(0x100000001b3);
    }
    h
}

#[test]
fn mode1_sector_is_rebuilt() {
    let s = rebuild_sector_simd(&user(2048), &[0; 8], SectorType::Mode1, 166, None).unwrap();
    assert_eq!(&s[12..16], &[0x00, 0x02, 0x16, 0x01]);
    assert_eq!(&s[2064..2068], &[0x4c, 0xf0, 0x86, 0x1c]);
    assert_eq!(&s[2076..2084], &[0x29, 0x63, 0x01, 0x53, 0x0d, 0x6d, 0x07, 0x4a]);
    assert_eq!(&s[2248..2256], &[0xda, 0xa8, 0x55, 0x33, 0x46, 0x2a, 0x66, 0xbc]);
    assert_eq!(&s[2344..], &[0x43, 0x7c, 0xba, 0x43, 0x13, 0xfd, 0x25, 0xd1]);
    assert_eq!(fingerprint(&s), 0x7e391e5dd286d603);
    let b = rebuild_sector_bitwise(&user(2048), &[0; 8], SectorType::Mode1, 166, None).unwrap();
    assert_eq!(s, b);
}

#[test]
fn form1_sector_is_rebuilt() {
    let sub = [0, 0, 8, 0, 0, 0, 8, 0];
    let s = rebuild_sector_simd(&user(2048), &sub, SectorType::Mode2Form1, 1234, None).unwrap();
    assert_eq!(&s[12..16], &[0x00, 0x16, 0x34, 0x02]);
    assert_eq!(&s[2072..2076], &[0xfb, 0x6f, 0x07, 0xd7]);
    assert_eq!(fingerprint(&s), 0xabec4569b2814287);
    let b = rebuild_sector_bitwise(&user(2048), &sub, SectorType::Mode2Form1, 1234, None).unwrap();
    assert_eq!(s, b);
}

#[test]
fn form2_sector_is_rebuilt() {
    let sub = [0, 0, 0x20, 0, 0, 0, 0x20, 0];
    let num = 12 * 4500 + 34 * 75 + 56;
    let s = rebuild_sector_simd(&user(2324), &sub, SectorType::Mode2Form2, num, None).unwrap();
    assert_eq!(&s[12..16], &[0x12, 0x34, 0x56, 0x02]);
    assert_eq!(&s[2348..], &[0x16, 0xe6, 0x76, 0x0f]);
    assert_eq!(fingerprint(&s), 0x49d75f47c88b3926);
    let b = rebuild_sector_bitwise(&user(2324), &sub, SectorType::Mode2Form2, num, None).unwrap();
    assert_eq!(s, b);
}

#[test]
fn deviating_sectors_take_their_stored_bytes() {
    let stored: Vec<u8> = (0..296).map(|i| (i * 5) as u8).collect();
    let meta = [9; 8];
    let s =
        rebuild_sector_simd(&user(2048), &meta, SectorType::Mode1Exception, 0, Some(&stored))
            .unwrap();
    assert_eq!(&s[0..16], &stored[0..16]);
    assert_eq!(&s[16..2064], &user(2048)[..]);
    assert_eq!(&s[2064..2068], &stored[16..20]);
    assert_eq!(&s[2068..2076], &meta);
    assert_eq!(&s[2076..], &stored[20..]);
    let s =
        rebuild_sector_simd(&user(2048), &meta, SectorType::Mode2Form1Exception, 0, Some(&stored))
            .unwrap();
    assert_eq!(&s[16..24], &meta);
    assert_eq!(&s[24..2072], &user(2048)[..]);
    assert_eq!(&s[2072..], &stored[16..]);
    let s = rebuild_sector_bitwise(
        &user(2324),
        &meta,
        SectorType::Mode2Form2Exception,
        0,
        Some(&stored[..20]),
    )
    .unwrap();
    assert_eq!(&s[24..2348], &user(2324)[..]);
    assert_eq!(&s[2348..], &stored[16..20]);
}

#[test]
fn sectors_that_cannot_be_rebuilt_are_reported() {
    let meta = [0; 8];
    assert!(matches!(
        rebuild_sector_simd(&user(2352), &meta, SectorType::Audio, 0, None),
        Err(ReconstructionError::UnsupportedType(SectorType::Audio))
    ));
    match rebuild_sector_simd(&user(100), &meta, SectorType::Mode1, 0, None) {
        Err(ReconstructionError::DataLengthMismatch { sector_type, expected, actual }) => {
            assert_eq!((sector_type.as_str(), expected, actual), ("Mode1", 2048, 100))
        }
        other => panic!("{:?}", other),
    }
    assert!(matches!(
        rebuild_sector_bitwise(&user(2048), &meta, SectorType::Mode1Exception, 0, None),
        Err(ReconstructionError::MissingExceptionData)
    ));
    assert!(matches!(
        rebuild_sector_simd(&user(2048), &meta, SectorType::Mode1Exception, 0, Some(&[0; 20])),
        Err(ReconstructionError::DataLengthMismatch { expected: 296, actual: 20, .. })
    ));
}

#[test]
fn zeroed_sectors_are_copied() {
    let s = rebuild_sector_simd(&user(2352), &[0; 8], SectorType::ZeroedMode1Data, 5, None).unwrap();
    assert_eq!(&s[..], &user(2352)[..]);
}

#[test]
fn parity_is_the_same_both_ways() {
    let mut a = [0u8; 2352];
    for i in 0..2352 {
        a[i] = (i * i + 11 * i) as u8;
    }
    let mut b = a;
    calc_ecc_bitwise(&mut a);
    calc_ecc_simd_inplace(&mut b);
    assert_eq!(a, b);
    assert_eq!(edc_of(b""), 0);
    assert_eq!(edc_of(&[1]), 0x90910101);
}

#[test]
fn positions_convert_both_ways() {
    for total in [0u32, 74, 75, 4499, 4500, 333_000] {
        let time = MsfTime::from_total_frames(total);
        assert!(time.second < 60 && time.frame < 75);
        assert_eq!(time.to_total_frames(), total);
    }
    assert_eq!(MsfTime::from_total_frames(4653), MsfTime { minute: 1, second: 2, frame: 3 });
}

#[test]
fn coded_digits_convert_both_ways() {
    assert_eq!(to_bcd(59), 0x59);
    for v in 0..100 {
        assert_eq!(from_bcd(to_bcd(v)), v);
    }
}

#[test]
fn encoding_undoes_decoding() {
    let map = SectorMap {
        sectors: vec![
            SectorType::Audio,
            SectorType::Audio,
            SectorType::Mode1,
            SectorType::Audio,
            SectorType::Unmapped,
        ],
    };
    assert_eq!(rle_decode_map(&rle_encode_map(&map)), map);
}

#[test]
fn decoded_map_gives_stream_offsets() {
    let map = build_decoded_map(&RleSectorMap {
        runs: vec![
            (2, SectorType::Mode1),
            (1, SectorType::Audio),
            (1, SectorType::Mode2Form2),
            (1, SectorType::Mode1),
        ],
    });
    let offsets: Vec<u64> = map.iter().map(|s| s.stream_offset).collect();
    assert_eq!(offsets, vec![0, 2048, 4096, 4096, 6420]);
}

#[test]
fn buffer_is_drained_from_the_front() {
    let mut buffer: VecDeque<Vec<u8>> = VecDeque::new();
    buffer.push_back(vec![1, 2, 3]);
    buffer.push_back(vec![4, 5]);
    assert_eq!(drain_buffer(&mut buffer, 4), vec![1, 2, 3, 4]);
    assert_eq!(buffer.iter().flatten().copied().collect::<Vec<u8>>(), vec![5]);
}

// Takes sectors until there are as many as it has room for.
struct Shelf {
    written: Vec<u8>,
    room: usize,
}

impl Shelf {
    fn new(room: usize) -> Shelf {
        Shelf { written: Vec::new(), room }
    }
}

impl SectorWriter for Shelf {
    fn write_sector(&mut self, sector: &[u8; 2352]) -> Result<(), std::io::Error> {
        if self.room == 0 {
            return Err(std::io::Error::from(std::io::ErrorKind::WriteZero));
        }
        self.room -= 1;
        self.written.extend_from_slice(sector);
        Ok(())
    }
}

// --- mapping ---

struct Disc {
    sectors: Vec<[u8; 2352]>,
}

impl SectorDataProvider for Disc {
    fn read_sector(&mut self, sector_index: u32) -> Result<[u8; 2352], std::io::Error> {
        match self.sectors.get(sector_index as usize) {
            Some(s) => Ok(*s),
            None => Err(std::io::Error::from(std::io::ErrorKind::UnexpectedEof)),
        }
    }
}

fn track(number: u8, track_type: TrackType, points: &[(u8, u32)]) -> Track {
    Track {
        number,
        track_type,
        indices: points
            .iter()
            .map(|(number, at)| TrackIndex {
                number: *number,
                position: MsfTime::from_total_frames(*at),
            })
            .collect(),
    }
}

fn sheet(tracks: Vec<Track>) -> CueSheet {
    CueSheet {
        source_filename: "d.cue".to_string(),
        files: vec![CueFile { name: "d.bin".to_string(), tracks }],
    }
}

fn raw_audio(n: usize) -> [u8; 2352] {
    let mut s = [0u8; 2352];
    for i in 0..2352 {
        s[i] = (n * 13 + i * 3 + 1) as u8;
    }
    s
}

fn user_of(n: usize) -> Vec<u8> {
    (0..2048).map(|i| (i * 5 + n) as u8).collect()
}

// Thirty sectors: data with one deviation, a gap, audio.
fn sample_disc() -> Vec<[u8; 2352]> {
    (0..30usize)
        .map(|i| {
            if i < 8 {
                let mut s = rebuild_sector_simd(
                    &user_of(i),
                    &[0; 8],
                    SectorType::Mode1,
                    i as u32 + 150,
                    None,
                )
                .unwrap();
                if i == 5 {
                    s[2100] ^= 0xff;
                }
                s
            } else {
                raw_audio(i)
            }
        })
        .collect()
}

fn analyze(s: &[u8; 2352], coarse: SectorType) -> Result<SectorAnalysis, AnalysisError> {
    let num = MsfTime {
        minute: from_bcd(s[12]),
        second: from_bcd(s[13]),
        frame: from_bcd(s[14]),
    }
    .to_total_frames();
    let mut meta = [0u8; 8];
    meta.copy_from_slice(&s[2068..2076]);
    assert_eq!(coarse, SectorType::Mode1);
    let again =
        rebuild_sector_simd(&s[16..2064], &meta, SectorType::Mode1, num, None).unwrap();
    if again == *s {
        Ok(SectorAnalysis { sector_type: SectorType::Mode1, exception_data: None })
    } else {
        let mut kept = s[0..16].to_vec();
        kept.extend_from_slice(&s[2064..2068]);
        kept.extend_from_slice(&s[2076..]);
        Ok(SectorAnalysis { sector_type: SectorType::Mode1Exception, exception_data: Some(kept) })
    }
}

#[test]
fn disc_is_mapped_stored_and_restored() {
    let original = sample_disc();
    let image: Vec<u8> = original.iter().flatten().copied().collect();
    let cue = sheet(vec![
        track(1, TrackType::Mode1_2352, &[(1, 0)]),
        track(2, TrackType::Audio, &[(0, 8), (1, 10)]),
    ]);
    let mut provider = Disc { sectors: original.clone() };
    let mut subheaders = SubheaderRegistry::new();
    let mut deviations = ExceptionRegistry::new();
    let mapped = analyze_and_map_disc(
        &cue,
        &[30],
        &mut provider,
        &analyze,
        &mut subheaders,
        &mut deviations,
    )
    .unwrap();
    let rle = rle_encode_map(&mapped.sector_map);
    assert_eq!(
        rle.runs,
        vec![
            (5, SectorType::Mode1),
            (1, SectorType::Mode1Exception),
            (2, SectorType::Mode1),
            (2, SectorType::PregapAudio),
            (20, SectorType::Audio),
        ]
    );
    assert_eq!(mapped.exception_index, vec![(5, 0)]);

    let read = |start: u32, count: u32| -> Result<Vec<u8>, std::io::Error> {
        let from = start as usize * 2352;
        Ok(image[from..from + count as usize * 2352].to_vec())
    };
    let blocks: Vec<ContentBlock<u64>> = build_block_map(&rle, &read).unwrap();
    let mut store: HashMap<u64, Vec<u8>> = HashMap::new();
    for b in &blocks {
        let bytes = read(b.start_sector, b.sector_count).unwrap();
        assert_eq!(b.content_hash, u64::from_bytes_with_seed(&bytes));
        store.insert(b.content_hash, bytes);
    }
    let mut layout: Vec<DataChunkLayout<u64>> = Vec::new();
    let data: Vec<u8> = (0..8).flat_map(user_of).collect();
    for piece in data.chunks(5000) {
        let hash = u64::from_bytes_with_seed(piece);
        layout.push(DataChunkLayout { hash });
        store.insert(hash, piece.to_vec());
    }
    let manifest = DiscManifest {
        lba_map: mapped.lba_map.clone(),
        rle_sector_map: rle,
        audio_block_map: blocks,
        data_stream_layout: layout,
        subheader_index: mapped.subheader_index.clone(),
        disc_exception_index: mapped.exception_index.clone(),
        integrity_hash: xxhash_rust::xxh3::xxh3_64(&image),
    };
    let mut index: Vec<u64> = Vec::new();
    let mut blob: Vec<u8> = Vec::new();
    for d in deviations.entries() {
        index.push(blob.len() as u64);
        blob.extend_from_slice(d);
    }
    let table: Vec<[u8; 8]> = subheaders.entries().clone();
    let tables =
        DiscTables { exception_index: &index, exception_blob: &blob, subheaders: &table };
    assert!(can_assemble(&manifest, &tables));
    let get = |h: &[u64]| -> Result<Vec<Vec<u8>>, String> {
        Ok(h.iter().map(|h| store[h].clone()).collect())
    };
    let mut shelf = Shelf::new(30);
    write_disc(&manifest, &index, &blob, &table, get, get, &mut shelf).unwrap();
    assert_eq!(shelf.written, image);

    let digest = generate_sha_512(&image);
    verify_disc_integrity(&manifest, &index, &blob, &table, &digest, get, get).unwrap();
    assert!(matches!(
        verify_disc_integrity(&manifest, &index, &blob, &table, &[0; 64], get, get),
        Err(SpriteShrinkCDError::Reconstruction(ReconstructionError::HashMismatchError { .. }))
    ));

    let mut wrong = manifest.clone();
    wrong.integrity_hash = 0x0f;
    let mut shelf = Shelf::new(99);
    match write_disc(&wrong, &index, &blob, &table, get, get, &mut shelf) {
        Err(SpriteShrinkCDError::Reconstruction(ReconstructionError::HashMismatchError {
            orig_hash,
            ..
        })) => assert_eq!(orig_hash, "0f"),
        other => panic!("{:?}", other),
    }
    assert_eq!(shelf.written, image);
    let mut short = manifest.clone();
    short.data_stream_layout.pop();
    let mut shelf = Shelf::new(99);
    assert!(matches!(
        write_disc(&short, &index, &blob, &table, get, get, &mut shelf),
        Err(SpriteShrinkCDError::Reconstruction(ReconstructionError::InternalError(_)))
    ));
    let refuse = |_: &[u64]| -> Result<Vec<Vec<u8>>, String> { Err("gone".to_string()) };
    let mut shelf = Shelf::new(99);
    assert!(write_disc(&manifest, &index, &blob, &table, refuse, get, &mut shelf).is_err());
    assert!(shelf.written.is_empty());
    let mut bare = manifest.clone();
    bare.subheader_index.clear();
    assert!(matches!(
        write_disc(&bare, &index, &blob, &table, get, get, &mut shelf),
        Err(SpriteShrinkCDError::Reconstruction(ReconstructionError::MissingSubheader(0)))
    ));
    let mut shelf = Shelf::new(7);
    assert!(matches!(
        write_disc(&manifest, &index, &blob, &table, get, get, &mut shelf),
        Err(SpriteShrinkCDError::Io(_))
    ));
    assert_eq!(shelf.written, image[..7 * 2352].to_vec());

    // A bad entry behind the end of a stream is never looked up.
    let mut torn = short.clone();
    torn.data_stream_layout.clear();
    torn.disc_exception_index = vec![(7, 99)];
    let mut shelf = Shelf::new(99);
    assert!(matches!(
        write_disc(&torn, &index, &blob, &table, get, get, &mut shelf),
        Err(SpriteShrinkCDError::Reconstruction(ReconstructionError::InternalError(_)))
    ));
    assert!(shelf.written.is_empty());
}

#[test]
fn audio_is_cut_into_segments() {
    let rle = RleSectorMap {
        runs: vec![
            (3, SectorType::Mode1),
            (20, SectorType::PregapAudio),
            (35, SectorType::Audio),
            (4, SectorType::ZeroedAudio),
            (16, SectorType::Audio),
        ],
    };
    let found: Vec<(u32, u32)> =
        audio_segments(&rle).iter().map(|s| (s.start_sector, s.sector_count)).collect();
    assert_eq!(found, vec![(3, 20), (23, 16), (39, 16), (55, 3), (62, 16)]);
    let fail = |_: u32, _: u32| -> Result<Vec<u8>, std::io::Error> {
        Err(std::io::Error::from(std::io::ErrorKind::NotFound))
    };
    assert!(build_block_map::<u64, _>(&rle, &fail).is_err());
}

#[test]
fn sheets_that_cannot_be_mapped_are_reported() {
    let mut provider = Disc { sectors: vec![] };
    let mut run = |cue: &CueSheet, counts: &[u32]| {
        analyze_and_map_disc(
            cue,
            counts,
            &mut provider,
            &analyze,
            &mut SubheaderRegistry::new(),
            &mut ExceptionRegistry::new(),
        )
    };
    let empty = CueSheet { source_filename: "e".to_string(), files: vec![] };
    assert!(matches!(
        run(&empty, &[]),
        Err(SpriteShrinkCDError::Mapper(MapperError::EmptyCueSheet))
    ));
    let no_index = sheet(vec![track(4, TrackType::Mode1_2352, &[(0, 0)])]);
    assert!(matches!(
        run(&no_index, &[3]),
        Err(SpriteShrinkCDError::Mapper(MapperError::MissingIndex01(4)))
    ));
    let good = sheet(vec![track(1, TrackType::Mode1_2352, &[(1, 0)])]);
    let mut two = good.clone();
    two.files.push(two.files[0].clone());
    assert!(matches!(
        run(&two, &[3]),
        Err(SpriteShrinkCDError::Mapper(MapperError::FileCountMismatch(1, 2)))
    ));
    assert!(run(&good, &[3]).is_err());
}

#[test]
fn files_of_a_sheet_are_joined() {
    let cue = CueSheet {
        source_filename: "d.cue".to_string(),
        files: vec![
            CueFile {
                name: "1.bin".to_string(),
                tracks: vec![track(1, TrackType::Mode1_2352, &[(1, 0)])],
            },
            CueFile {
                name: "2.bin".to_string(),
                tracks: vec![track(2, TrackType::Audio, &[(0, 0), (1, 150)])],
            },
        ],
    };
    let joined = normalize_cue_sheet(&cue, &[1000, 500], "all.bin").unwrap();
    assert_eq!(joined.files.len(), 1);
    assert_eq!(joined.files[0].name, "all.bin");
    let points: Vec<u32> =
        joined.files[0].tracks[1].indices.iter().map(|i| i.position.to_total_frames()).collect();
    assert_eq!(points, vec![1000, 1150]);
}

#[test]
fn registries_find_values_again() {
    let mut r = SubheaderRegistry::new();
    assert_eq!(r.get_or_register([1; 8]), 0);
    assert_eq!(r.get_or_register([2; 8]), 1);
    assert_eq!(r.get_or_register([1; 8]), 0);
    assert_eq!(r.entries().len(), 2);
    let mut e = ExceptionRegistry::new();
    assert_eq!(e.get_or_register(vec![1, 2]), 0);
    assert_eq!(e.get_or_register(vec![3]), 1);
    assert_eq!(e.get_or_register(vec![1, 2]), 0);
}

#[test]
fn manifests_that_do_not_fit_are_found() {
    let manifest: DiscManifest<u64> = DiscManifest {
        lba_map: vec![(0, 150)],
        rle_sector_map: RleSectorMap {
            runs: vec![(1, SectorType::Audio), (2, SectorType::Mode1Exception)],
        },
        audio_block_map: vec![],
        data_stream_layout: vec![],
        subheader_index: vec![SubHeaderEntry { start_lba: 1, count: 2, data_id: 0 }],
        disc_exception_index: vec![(2, 0)],
        integrity_hash: 0,
    };
    let table = [[0u8; 8]];
    let blob = [0u8; 300];
    let fits = |m: &DiscManifest<u64>, index: &[u64], table: &[[u8; 8]]| {
        can_assemble(
            m,
            &DiscTables { exception_index: index, exception_blob: &blob, subheaders: table },
        )
    };
    assert!(fits(&manifest, &[4], &table));
    assert!(!fits(&manifest, &[5], &table));
    assert!(!fits(&manifest, &[u64::MAX], &table));
    assert!(!fits(&manifest, &[], &table));
    assert!(!fits(&manifest, &[4], &[]));

    let mut far = manifest.clone();
    far.lba_map = vec![(0, u32::MAX - 2)];
    assert!(fits(&far, &[4], &table));
    far.lba_map = vec![(0, u32::MAX - 1)];
    assert!(!fits(&far, &[4], &table));
    far.lba_map = vec![(0, u32::MAX), (0, 150)];
    assert!(!fits(&far, &[4], &table));

    let mut bad = manifest.clone();
    bad.lba_map.clear();
    assert!(!fits(&bad, &[4], &table));
    let mut bad = manifest.clone();
    bad.disc_exception_index.push((3, 0));
    assert!(!fits(&bad, &[4], &table));
    let mut bad = manifest.clone();
    bad.subheader_index[0].start_lba = u32::MAX;
    assert!(!fits(&bad, &[4], &table));
    bad.subheader_index[0].count = 1;
    assert!(fits(&bad, &[4], &table));
}

#[test]
fn sectors_are_counted_in_32_bits() {
    let runs = |last: u32| RleSectorMap {
        runs: vec![(u32::MAX - 1, SectorType::Audio), (last, SectorType::Mode1)],
    };
    assert!(is_countable(&RleSectorMap { runs: vec![] }));
    assert!(is_countable(&runs(1)));
    assert!(!is_countable(&runs(2)));
}

#[test]
fn headers_may_jump_between_tracks() {
    let sectors: Vec<[u8; 2352]> = (0..208usize)
        .map(|i| {
            let ahead = if i < 4 { 150 } else { 400 };
            if i < 4 || i >= 204 {
                rebuild_sector_simd(
                    &user_of(i),
                    &[0; 8],
                    SectorType::Mode1,
                    i as u32 + ahead,
                    None,
                )
                .unwrap()
            } else {
                raw_audio(i)
            }
        })
        .collect();
    let image: Vec<u8> = sectors.iter().flatten().copied().collect();
    let cue = sheet(vec![
        track(1, TrackType::Mode1_2352, &[(1, 0)]),
        track(2, TrackType::Audio, &[(1, 4)]),
        track(3, TrackType::Mode1_2352, &[(1, 204)]),
    ]);
    let mut subheaders = SubheaderRegistry::new();
    let mut deviations = ExceptionRegistry::new();
    let mapped = analyze_and_map_disc(
        &cue,
        &[208],
        &mut Disc { sectors: sectors.clone() },
        &analyze,
        &mut subheaders,
        &mut deviations,
    )
    .unwrap();
    assert_eq!(mapped.lba_map, vec![(0, 150), (204, 400)]);
    let manifest: DiscManifest<u64> = DiscManifest {
        lba_map: mapped.lba_map,
        rle_sector_map: rle_encode_map(&mapped.sector_map),
        audio_block_map: vec![ContentBlock {
            start_sector: 4,
            sector_count: 200,
            content_hash: 1,
            sector_type: SectorType::Audio,
        }],
        data_stream_layout: vec![DataChunkLayout { hash: 2 }],
        subheader_index: mapped.subheader_index,
        disc_exception_index: mapped.exception_index,
        integrity_hash: xxhash_rust::xxh3::xxh3_64(&image),
    };
    let audio = image[4 * 2352..204 * 2352].to_vec();
    let data: Vec<u8> = (0..4).chain(204..208).flat_map(user_of).collect();
    let get_data = |_: &[u64]| -> Result<Vec<Vec<u8>>, String> { Ok(vec![data.clone()]) };
    let get_audio = |_: &[u64]| -> Result<Vec<Vec<u8>>, String> { Ok(vec![audio.clone()]) };
    let table: Vec<[u8; 8]> = subheaders.entries().clone();
    let mut shelf = Shelf::new(208);
    write_disc(&manifest, &[], &[], &table, get_data, get_audio, &mut shelf).unwrap();
    assert_eq!(shelf.written, image);
}

struct Watched {
    disc: Disc,
    asked: Vec<u32>,
}

impl SectorDataProvider for Watched {
    fn read_sector(&mut self, sector_index: u32) -> Result<[u8; 2352], std::io::Error> {
        self.asked.push(sector_index);
        self.disc.read_sector(sector_index)
    }
}

#[test]
fn sectors_are_asked_for_once_and_in_order() {
    let good = sheet(vec![
        track(1, TrackType::Mode1_2352, &[(1, 0)]),
        track(2, TrackType::Audio, &[(0, 8), (1, 10)]),
    ]);
    let run = |cue: &CueSheet, count: u32| {
        let mut provider = Watched { disc: Disc { sectors: sample_disc() }, asked: Vec::new() };
        let mut subheaders = SubheaderRegistry::new();
        let r = analyze_and_map_disc(
            cue,
            &[count],
            &mut provider,
            &analyze,
            &mut subheaders,
            &mut ExceptionRegistry::new(),
        );
        (r.is_ok(), provider.asked)
    };
    assert_eq!(run(&good, 30), (true, (0..30).collect::<Vec<u32>>()));
    assert_eq!(run(&good, 32), (false, (0..31).collect::<Vec<u32>>()));
    let no_index = sheet(vec![track(1, TrackType::Mode1_2352, &[(0, 0)])]);
    assert_eq!(run(&no_index, 30), (false, Vec::new()));
}
