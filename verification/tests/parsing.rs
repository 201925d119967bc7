use sprite_shrink::error::SpriteShrinkError;
use sprite_shrink::hashing::SS_SEED;
use sprite_shrink::parsing::{
    check_header, format_data_of, parse_file_chunk_index, parse_file_header, parse_file_metadata,
    parse_file_toc, parse_format_data, ParsingError, MAGIC_NUMBER, SUPPORTED_VERSION,
};
use sprite_shrink::structs::{FileHeader, SSMCFormatData};

// Manifests, index entries and table entries have the same encoding as tuples of
// their fields.
type Manifest<H> = (u64, Vec<(H, u64, u32)>);
type IndexEntry = (u64, (u64, u32));
type TocEntry = (String, u64);

fn valid_header() -> FileHeader {
    FileHeader::build_file_header(2, 1, 1, 0, 64)
}

#[test]
fn test_magic_number_spells_ssarchv1() {
    assert_eq!(&MAGIC_NUMBER, b"SSARCHV1");
}

#[test]
fn test_ss_seed_has_expected_value() {
    assert_eq!(SS_SEED, 0x4202803010192019);
}

#[test]
fn test_parse_file_header_succeeds_with_valid_header() {
    let header = valid_header();
    let result = parse_file_header(&header.to_bytes()).unwrap();
    assert_eq!(result.magic_num, MAGIC_NUMBER);
    assert_eq!(result.file_version, SUPPORTED_VERSION);
    assert_eq!(result.file_count, 2);
}

#[test]
fn test_parse_file_header_rejects_wrong_magic_number() {
    let mut header = valid_header();
    header.magic_num = *b"BADMAGIC";
    let result = parse_file_header(&header.to_bytes());
    assert!(matches!(result, Err(SpriteShrinkError::Parsing(ParsingError::InvalidHeader(_)))));
}

#[test]
fn test_parse_file_header_rejects_newer_file_version() {
    let mut header = valid_header();
    header.file_version = SUPPORTED_VERSION + 1;
    let result = parse_file_header(&header.to_bytes());
    assert!(matches!(result, Err(SpriteShrinkError::Parsing(ParsingError::InvalidFileVersion()))));
}

#[test]
fn test_parse_file_header_accepts_older_file_version() {
    let mut header = valid_header();
    header.file_version = SUPPORTED_VERSION - 1;
    let result = parse_file_header(&header.to_bytes());
    assert!(result.is_ok());
}

#[test]
fn test_parse_file_header_accepts_current_file_version() {
    let header = valid_header();
    let result = parse_file_header(&header.to_bytes());
    assert!(result.is_ok());
    assert_eq!(result.unwrap().file_version, SUPPORTED_VERSION);
}

#[test]
fn test_parse_file_header_rejects_slice_too_small() {
    let result = parse_file_header(&[0u8; 4]);
    assert!(matches!(result, Err(SpriteShrinkError::Parsing(ParsingError::InvalidHeader(_)))));
}

#[test]
fn test_parse_file_header_rejects_slice_too_large() {
    let bytes = vec![0u8; std::mem::size_of::<FileHeader>() + 1];
    let result = parse_file_header(&bytes);
    assert!(matches!(result, Err(SpriteShrinkError::Parsing(ParsingError::InvalidHeader(_)))));
}

#[test]
fn test_parse_file_metadata_round_trips_manifest() {
    let manifests: Vec<Manifest<u64>> =
        vec![(2, vec![(0xdead_beef_u64, 0, 100), (0xcafe_babe_u64, 100, 200)])];
    let encoded = bitcode::encode(&manifests);
    let parsed = parse_file_metadata::<u64>(&encoded).unwrap();
    assert_eq!(parsed.len(), 1);
    assert_eq!(parsed[0].chunk_count, 2);
    assert_eq!(parsed[0].chunk_metadata[0].hash, 0xdead_beef_u64);
    assert_eq!(parsed[0].chunk_metadata[1].offset, 100);
}

#[test]
fn test_parse_file_metadata_round_trips_u128_hashes() {
    let manifests: Vec<Manifest<u128>> = vec![(1, vec![(u128::MAX, 0, 50)])];
    let encoded = bitcode::encode(&manifests);
    let parsed = parse_file_metadata::<u128>(&encoded).unwrap();
    assert_eq!(parsed[0].chunk_metadata[0].hash, u128::MAX);
}

#[test]
fn test_parse_file_metadata_returns_empty_vec_for_empty_manifest() {
    let encoded = bitcode::encode(&Vec::<Manifest<u64>>::new());
    let parsed = parse_file_metadata::<u64>(&encoded).unwrap();
    assert_eq!(parsed.len(), 0);
}

#[test]
fn test_parse_file_metadata_rejects_corrupt_data() {
    let result = parse_file_metadata::<u64>(b"not valid bitcode");
    assert!(matches!(
        result,
        Err(SpriteShrinkError::Parsing(ParsingError::ManifestDecodeError(_)))
    ));
}

#[test]
fn test_parse_file_chunk_index_round_trips_index() {
    let entries: Vec<IndexEntry> = vec![(0xaabb_u64, (0, 50)), (0xccdd_u64, (50, 75))];
    let encoded = bitcode::encode(&entries);
    let map = parse_file_chunk_index::<u64>(&encoded).unwrap();
    assert_eq!(map.len(), 2);
    assert_eq!(map[&0xaabb_u64].offset, 0);
    assert_eq!(map[&0xccdd_u64].compressed_length, 75);
}

#[test]
fn test_parse_file_chunk_index_returns_empty_map_for_empty_index() {
    let encoded = bitcode::encode(&Vec::<IndexEntry>::new());
    let map = parse_file_chunk_index::<u64>(&encoded).unwrap();
    assert_eq!(map.len(), 0);
}

#[test]
fn test_parse_file_chunk_index_rejects_corrupt_data() {
    let result = parse_file_chunk_index::<u64>(b"not valid bitcode");
    assert!(matches!(result, Err(SpriteShrinkError::Parsing(ParsingError::IndexDecodeError(_)))));
}

#[test]
fn test_parse_file_toc_round_trips_entries() {
    let toc: Vec<TocEntry> = vec![("sprite.png".into(), 4096), ("level.dat".into(), 1024)];
    let encoded = bitcode::encode(&toc);
    let parsed = parse_file_toc(&encoded).unwrap();
    assert_eq!(parsed.len(), 2);
    assert_eq!(parsed[0].filename, "sprite.png");
    assert_eq!(parsed[1].uncompressed_size, 1024);
}

#[test]
fn test_parse_file_toc_returns_empty_vec_for_empty_toc() {
    let encoded = bitcode::encode(&Vec::<TocEntry>::new());
    let parsed = parse_file_toc(&encoded).unwrap();
    assert_eq!(parsed.len(), 0);
}

#[test]
fn test_parse_file_toc_rejects_corrupt_data() {
    let result = parse_file_toc(b"not valid bitcode");
    assert!(matches!(result, Err(SpriteShrinkError::Parsing(ParsingError::TOCDecodeError(_)))));
}

#[test]
fn test_parse_format_data_round_trips_format_data() {
    let fd = SSMCFormatData::build_format_data(100, 200, 300, 400);
    let parsed = parse_format_data(&fd.to_bytes()).unwrap();
    assert_eq!(parsed.data_offset, fd.data_offset);
    assert_eq!(parsed.enc_manifest.length, fd.enc_manifest.length);
    assert_eq!(parsed.data_dictionary.offset, fd.data_dictionary.offset);
}

#[test]
fn test_parse_format_data_rejects_slice_too_small() {
    let result = parse_format_data(&[0u8; 8]);
    assert!(matches!(
        result,
        Err(SpriteShrinkError::Parsing(ParsingError::InvalidFormatData(_)))
    ));
}

#[test]
fn test_parse_format_data_rejects_slice_too_large() {
    let bytes = vec![0u8; std::mem::size_of::<SSMCFormatData>() + 1];
    let result = parse_format_data(&bytes);
    assert!(matches!(
        result,
        Err(SpriteShrinkError::Parsing(ParsingError::InvalidFormatData(_)))
    ));
}

// --- further cases ---

#[test]
fn header_bytes_stand_in_their_places() {
    let header = FileHeader::build_file_header(0x01020304, 0x0506, 7, 8, 0x090a0b0c);
    let bytes = header.to_bytes();
    assert_eq!(bytes.len(), 28);
    assert_eq!(&bytes[0..8], b"SSARCHV1");
    assert_eq!(&bytes[12..16], &[4, 3, 2, 1]);
    assert_eq!(&bytes[16..20], &[6, 5, 7, 8]);
    assert_eq!(&bytes[20..24], &[28, 0, 0, 0]);
    assert_eq!(&bytes[24..28], &[0x0c, 0x0b, 0x0a, 9]);
}

#[test]
fn header_is_read_back_as_written() {
    let header = FileHeader::build_file_header(77, 3, 2, 9, 4321);
    let read = parse_file_header(&header.to_bytes()).unwrap();
    assert_eq!(read, header);
}

#[test]
fn format_data_is_read_back_as_written() {
    let fd = SSMCFormatData::build_format_data(1, 2, 3, 4);
    assert_eq!(fd.data_dictionary.offset, 3);
    assert_eq!(fd.enc_chunk_index.offset, 6);
    assert_eq!(fd.data_offset, 10);
    let bytes = fd.to_bytes();
    assert_eq!(bytes.len(), 56);
    assert_eq!(parse_format_data(&bytes).unwrap(), fd);
}

#[test]
fn wrong_magic_number_is_reported_in_words() {
    let mut header = valid_header();
    header.magic_num[0] = b'X';
    match parse_file_header(&header.to_bytes()) {
        Err(SpriteShrinkError::Parsing(ParsingError::InvalidHeader(m))) => {
            assert_eq!(m, "File Magic Number is invalid.")
        }
        other => panic!("{:?}", other),
    }
}

#[test]
fn later_index_entry_wins() {
    let entries: Vec<IndexEntry> = vec![(5, (0, 10)), (5, (10, 20))];
    let map = parse_file_chunk_index::<u64>(&bitcode::encode(&entries)).unwrap();
    assert_eq!(map.len(), 1);
    assert_eq!(map[&5].offset, 10);
}

#[test]
fn wide_chunk_index_round_trips() {
    let entries: Vec<(u128, (u64, u32))> = vec![(u128::MAX, (7, 8)), (3, (15, 16))];
    let map = parse_file_chunk_index::<u128>(&bitcode::encode(&entries)).unwrap();
    assert_eq!(map[&u128::MAX].offset, 7);
    assert_eq!(map[&3].compressed_length, 16);
}

#[test]
fn header_is_taken_at_one_address_in_four() {
    let header = FileHeader::build_file_header(77, 3, 2, 9, 4321);
    let mut taken = 0;
    for at in 0..4 {
        let mut buffer = vec![0u8; at];
        buffer.extend_from_slice(&header.to_bytes());
        buffer.extend_from_slice(&[0; 4]);
        match parse_file_header(&buffer[at..at + 28]) {
            Ok(read) => {
                assert_eq!(read, header);
                taken += 1;
            }
            Err(SpriteShrinkError::Parsing(ParsingError::InvalidHeader(m))) => {
                assert_eq!(m, "TargetAlignmentGreaterAndInputNotAligned")
            }
            other => panic!("{:?}", other),
        }
    }
    assert_eq!(taken, 1);
}

#[test]
fn format_data_is_taken_where_a_word_may_stand() {
    let fd = SSMCFormatData::build_format_data(1, 2, 3, 4);
    let align = std::mem::align_of::<u64>();
    let mut taken = 0;
    for at in 0..align {
        let mut buffer = vec![0u8; at];
        buffer.extend_from_slice(&fd.to_bytes());
        buffer.extend_from_slice(&[0; 8]);
        match parse_format_data(&buffer[at..at + 56]) {
            Ok(read) => {
                assert_eq!(read, fd);
                taken += 1;
            }
            Err(SpriteShrinkError::Parsing(ParsingError::InvalidFormatData(m))) => {
                assert_eq!(m, "TargetAlignmentGreaterAndInputNotAligned")
            }
            other => panic!("{:?}", other),
        }
    }
    assert_eq!(taken, 1);
}

#[test]
fn other_lengths_are_refused_as_such() {
    match parse_file_header(&[0u8; 29]) {
        Err(SpriteShrinkError::Parsing(ParsingError::InvalidHeader(m))) => {
            assert_eq!(m, "SizeMismatch")
        }
        other => panic!("{:?}", other),
    }
    match parse_format_data(&[0u8; 55]) {
        Err(SpriteShrinkError::Parsing(ParsingError::InvalidFormatData(m))) => {
            assert_eq!(m, "SizeMismatch")
        }
        other => panic!("{:?}", other),
    }
}

#[test]
fn headers_are_checked_by_their_bytes() {
    let header = valid_header();
    let mut bytes = [0u8; 28];
    bytes.copy_from_slice(&header.to_bytes());
    assert_eq!(check_header(&bytes).unwrap(), header);
    bytes[11] = 1;
    assert!(matches!(
        check_header(&bytes),
        Err(SpriteShrinkError::Parsing(ParsingError::InvalidFileVersion()))
    ));
    bytes[7] = b'2';
    assert!(matches!(
        check_header(&bytes),
        Err(SpriteShrinkError::Parsing(ParsingError::InvalidHeader(_)))
    ));
    let mut words = [[0u8; 8]; 7];
    words[0] = [1, 2, 0, 0, 0, 0, 0, 0];
    words[6] = [0, 0, 0, 0, 0, 0, 0, 1];
    let found = format_data_of(&words);
    assert_eq!(found.enc_manifest.offset, 513);
    assert_eq!(found.data_offset, 1 << 56);
    assert_eq!(found.enc_chunk_index.length, 0);
}
