use sprite_shrink::archive_parser::{
    get_chunk_index, get_file_header, get_file_manifest, get_max_rom_index, get_toc,
    max_rom_index, CliError,
};
use sprite_shrink::error::SpriteShrinkError;
use sprite_shrink::parsing::ParsingError;
use sprite_shrink::structs::FileHeader;

fn reader(data: Vec<u8>) -> impl Fn(u64, usize) -> Result<Vec<u8>, CliError> {
    move |offset: u64, length: usize| {
        let start = offset as usize;
        match data.get(start..start + length) {
            Some(bytes) => Ok(bytes.to_vec()),
            None => Err(CliError::Io(std::io::Error::from(std::io::ErrorKind::UnexpectedEof))),
        }
    }
}

#[test]
fn get_file_header_reads_and_parses_header() {
    let header = FileHeader::build_file_header(3, 1, 1, 0, 0);
    let file = reader(header.to_bytes());

    let parsed = get_file_header(&file).unwrap();

    assert_eq!(parsed.file_count, 3);
    assert_eq!(parsed.algorithm, 1);
}

#[test]
fn get_max_rom_index_returns_file_count_as_u8() {
    let header = FileHeader::build_file_header(7, 1, 1, 0, 0);
    let file = reader(header.to_bytes());

    assert_eq!(get_max_rom_index(&file).unwrap(), 7);
}

#[test]
fn get_file_manifest_reads_encoded_manifest_section() {
    let manifest: Vec<(u64, Vec<(u64, u64, u32)>)> = vec![(1, vec![(42u64, 0, 5)])];
    let encoded = bitcode::encode(&manifest);
    let mut bytes = b"prefix".to_vec();
    let offset = bytes.len() as u64;
    bytes.extend_from_slice(&encoded);
    let file = reader(bytes);

    let parsed = get_file_manifest::<u64, _>(&file, offset, encoded.len()).unwrap();

    assert_eq!(parsed.len(), 1);
    assert_eq!(parsed[0].chunk_count, 1);
    assert_eq!(parsed[0].chunk_metadata[0].hash, 42);
}

#[test]
fn get_chunk_index_reads_encoded_index_section() {
    let entries: Vec<(u64, (u64, u32))> = vec![(42u64, (11, 5))];
    let encoded = bitcode::encode(&entries);
    let mut bytes = b"prefix".to_vec();
    let offset = bytes.len() as u64;
    bytes.extend_from_slice(&encoded);
    let file = reader(bytes);

    let parsed = get_chunk_index::<u64, _>(&file, offset, encoded.len() as u64).unwrap();

    assert_eq!(parsed[&42].offset, 11);
    assert_eq!(parsed[&42].compressed_length, 5);
}

#[test]
fn get_toc_reads_encoded_toc_section() {
    let toc: Vec<(String, u64)> = vec![("rom.bin".to_string(), 123)];
    let encoded = bitcode::encode(&toc);
    let mut bytes = b"prefix".to_vec();
    let offset = bytes.len() as u32;
    bytes.extend_from_slice(&encoded);
    let file = reader(bytes);

    let parsed = get_toc(&file, offset, encoded.len()).unwrap();

    assert_eq!(parsed.len(), 1);
    assert_eq!(parsed[0].filename, "rom.bin");
    assert_eq!(parsed[0].uncompressed_size, 123);
}

// --- further cases ---

#[test]
fn failed_read_is_passed_on() {
    let file = reader(vec![0u8; 3]);
    assert!(matches!(get_file_header(&file), Err(CliError::Io(_))));
    assert!(matches!(get_max_rom_index(&file), Err(CliError::Io(_))));
    assert!(matches!(get_file_manifest::<u64, _>(&file, 1, 9), Err(CliError::Io(_))));
    assert!(matches!(get_chunk_index::<u64, _>(&file, 1, 9), Err(CliError::Io(_))));
    assert!(matches!(get_toc(&file, 1, 9), Err(CliError::Io(_))));
}

#[test]
fn bad_sections_are_refused() {
    let file = reader(b"not valid bitcode, nor a header of an archive".to_vec());
    assert!(matches!(
        get_file_header(&file),
        Err(CliError::Library(SpriteShrinkError::Parsing(ParsingError::InvalidHeader(_))))
    ));
    assert!(matches!(
        get_file_manifest::<u64, _>(&file, 0, 17),
        Err(CliError::Library(SpriteShrinkError::Parsing(ParsingError::ManifestDecodeError(_))))
    ));
    assert!(matches!(
        get_chunk_index::<u64, _>(&file, 0, 17),
        Err(CliError::Library(SpriteShrinkError::Parsing(ParsingError::IndexDecodeError(_))))
    ));
    match get_toc(&file, 0, 17) {
        Err(CliError::InternalError(m)) => assert!(m.starts_with("Failed to decode TOC: ")),
        _ => panic!("decoded"),
    }
}

#[test]
fn more_than_255_files_have_no_index() {
    assert_eq!(max_rom_index(255).unwrap(), 255);
    match max_rom_index(256) {
        Err(CliError::InternalError(m)) => assert_eq!(
            m,
            "The number of files in the archive exceeds the supported limit of255."
        ),
        _ => panic!("accepted"),
    }
    let header = FileHeader::build_file_header(300, 1, 1, 0, 0);
    assert!(get_max_rom_index(&reader(header.to_bytes())).is_err());
}
