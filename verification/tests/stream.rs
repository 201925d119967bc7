use sprite_shrink::disc::{SectorMap, SectorType};
use sprite_shrink::stream::{
    InvalidSeek, MultiBinStream, SectorRegionStream, StreamSeek, UserDataStream, UserStep,
};

fn open(files: &[&[u8]]) -> MultiBinStream {
    let lengths: Vec<u64> = files.iter().map(|f| f.len() as u64).collect();
    MultiBinStream::new(&lengths)
}

fn read(stream: &mut MultiBinStream, files: &[&[u8]], buf: &mut [u8]) -> usize {
    let mut total = 0;
    while let Some(part) = stream.next_read(buf.len() - total) {
        let from = part.offset as usize;
        buf[total..total + part.length]
            .copy_from_slice(&files[part.file][from..from + part.length]);
        total += part.length;
        stream.advance(part.length);
    }
    total
}

#[test]
fn multi_bin_stream_reads_across_file_boundary() {
    let files: [&[u8]; 2] = [b"abc", b"defg"];
    let mut stream = open(&files);
    let mut buf = [0u8; 7];

    let read = read(&mut stream, &files, &mut buf);

    assert_eq!(read, 7);
    assert_eq!(&buf, b"abcdefg");
}

#[test]
fn multi_bin_stream_seek_start_then_reads_from_virtual_offset() {
    let files: [&[u8]; 2] = [b"abc", b"defg"];
    let mut stream = open(&files);
    let mut buf = [0u8; 3];

    let pos = stream.seek(StreamSeek::Start(2)).unwrap();
    let read = read(&mut stream, &files, &mut buf);

    assert_eq!(pos, 2);
    assert_eq!(read, 3);
    assert_eq!(&buf, b"cde");
}

#[test]
fn multi_bin_stream_rejects_negative_seek() {
    let files: [&[u8]; 1] = [b"abc"];
    let mut stream = open(&files);

    let err = stream.seek(StreamSeek::Current(-1)).unwrap_err();

    assert_eq!(err, InvalidSeek);
}

// --- further cases ---

#[test]
fn empty_files_are_stepped_over() {
    let files: [&[u8]; 4] = [b"", b"ab", b"", b"c"];
    let mut stream = open(&files);
    let mut buf = [0u8; 10];
    assert_eq!(read(&mut stream, &files, &mut buf), 3);
    assert_eq!(&buf[..3], b"abc");
    assert_eq!(stream.next_read(5), None);
    assert_eq!(open(&[]).next_read(5), None);
}

#[test]
fn seeks_count_from_both_ends() {
    let mut stream = open(&[b"abc", b"defg"]);
    assert_eq!(stream.seek(StreamSeek::End(-2)), Ok(5));
    assert_eq!(stream.seek(StreamSeek::Current(-5)), Ok(0));
    assert_eq!(stream.seek(StreamSeek::End(3)), Ok(10));
    assert_eq!(stream.next_read(1), None);
    assert_eq!(stream.seek(StreamSeek::Start(u64::MAX)), Err(InvalidSeek));
    assert_eq!(stream.seek(StreamSeek::Current(i64::MAX)), Err(InvalidSeek));
    assert_eq!(stream.seek(StreamSeek::Current(0)), Ok(10));
}

fn sector(n: usize) -> Vec<u8> {
    (0..2352).map(|i| (n * 31 + i) as u8).collect()
}

#[test]
fn region_reads_its_sectors() {
    let image: Vec<u8> = (0..6).flat_map(sector).collect();
    let mut stream = SectorRegionStream::new(2, 3);
    assert_eq!(stream.seek(StreamSeek::Start(2350)), Ok(2350));
    let mut out: Vec<u8> = Vec::new();
    let mut loads = 0;
    while let Some(part) = stream.next_read(1000) {
        if part.must_load {
            loads += 1;
        }
        let at = part.sector as usize * 2352 + part.offset;
        out.extend_from_slice(&image[at..at + part.length]);
        stream.advance(part.sector, part.length);
    }
    assert_eq!(loads, 3);
    assert_eq!(out, image[2 * 2352 + 2350..5 * 2352].to_vec());
    assert_eq!(stream.seek(StreamSeek::End(0)), Ok(3 * 2352));
    assert_eq!(stream.seek(StreamSeek::End(-3 * 2352 - 1)), Err(InvalidSeek));
}

#[test]
fn region_ends_where_sector_numbers_end() {
    let mut stream = SectorRegionStream::new(u32::MAX - 1, 10);
    assert_eq!(stream.seek(StreamSeek::End(0)), Ok(2352));
}

#[test]
fn user_data_is_read_out_of_the_sectors() {
    let map = SectorMap {
        sectors: vec![
            SectorType::Audio,
            SectorType::Mode1,
            SectorType::Unmapped,
            SectorType::Mode2Form2,
            SectorType::PregapMode2,
            SectorType::ZeroedMode1Data,
            SectorType::PregapAudio,
        ],
    };
    let sectors: Vec<Vec<u8>> = (0..7).map(sector).collect();
    let mut expected: Vec<u8> = Vec::new();
    expected.extend_from_slice(&sectors[1][16..2064]);
    expected.extend_from_slice(&sectors[3][24..2348]);
    expected.extend_from_slice(&sectors[4][24..2072]);
    expected.extend_from_slice(&sectors[5]);

    let mut stream = UserDataStream::new();
    let mut loaded: Vec<u8> = Vec::new();
    let mut out: Vec<u8> = Vec::new();
    loop {
        match stream.step(&map, 700) {
            UserStep::Load { sector } => {
                loaded = sectors[sector as usize].clone();
                stream.sector_loaded(&map);
            }
            UserStep::Copy { offset, length } => {
                out.extend_from_slice(&loaded[offset..offset + length])
            }
            UserStep::End => break,
        }
    }
    assert_eq!(out, expected);
    assert_eq!(stream.step(&map, 0), UserStep::End);
}

#[test]
fn failed_load_is_tried_again() {
    let map = SectorMap { sectors: vec![SectorType::Audio, SectorType::Mode1] };
    let mut stream = UserDataStream::new();
    assert_eq!(stream.step(&map, 10), UserStep::Load { sector: 1 });
    assert_eq!(stream.step(&map, 10), UserStep::Load { sector: 1 });
    stream.sector_loaded(&map);
    assert_eq!(stream.step(&map, 10), UserStep::Copy { offset: 16, length: 10 });
}

#[test]
fn read_gives_the_next_bytes() {
    let map = SectorMap {
        sectors: vec![SectorType::Mode1, SectorType::Audio, SectorType::Mode2Form1],
    };
    let sectors: Vec<Vec<u8>> = (0..3).map(sector).collect();
    let mut all: Vec<u8> = sectors[0][16..2064].to_vec();
    all.extend_from_slice(&sectors[2][24..2072]);

    let mut stream = UserDataStream::new();
    let mut loaded: Vec<u8> = Vec::new();
    let mut at = 0;
    for wanted in [10usize, 2038, 0, 1, 3000] {
        let mut out: Vec<u8> = Vec::new();
        loop {
            match stream.step(&map, wanted - out.len()) {
                UserStep::Load { sector } => {
                    loaded = sectors[sector as usize].clone();
                    stream.sector_loaded(&map);
                }
                UserStep::Copy { offset, length } => {
                    out.extend_from_slice(&loaded[offset..offset + length])
                }
                UserStep::End => break,
            }
        }
        let end = (at + wanted).min(all.len());
        assert_eq!(out, all[at..end].to_vec());
        at = end;
    }
    assert_eq!(at, 4096);
}
