use std::cell::RefCell;
use std::collections::HashMap;
use std::fmt::{Display, Formatter};

use sprite_shrink::archive::{
    compress_chunks, compress_with_dict, decompress_chunk, run_compression, ArchiveBuilder,
    ArchiveError, ChunkSequencer, CountSink, ListSource,
};
use sprite_shrink::error::{IsCancelled, SpriteShrinkError};
use sprite_shrink::parsing::parse_file_chunk_index;
use sprite_shrink::processing::{
    create_file_manifest_and_chunks, process_file_in_memory, ProcessingError,
};
use sprite_shrink::structs::{FileData, Progress};

#[derive(Debug)]
struct TestError {
    cancelled: bool,
}

impl Display for TestError {
    fn fmt(&self, f: &mut Formatter<'_>) -> std::fmt::Result {
        f.write_str("test error")
    }
}

impl IsCancelled for TestError {
    fn is_cancelled(&self) -> bool {
        self.cancelled
    }
}

fn chunk(hash: u64) -> Vec<u8> {
    (0..300u64).map(|i| ((i * (hash + 3)) % 61) as u8).collect()
}

fn chunks(hashes: &[u64]) -> Result<Vec<Vec<u8>>, TestError> {
    Ok(hashes.iter().map(|h| chunk(*h)).collect())
}

fn no_optimizer(
    _samples: &[u8],
    _sizes: &[usize],
    _size: usize,
    _threads: usize,
    _level: i32,
) -> Result<Vec<u8>, ProcessingError> {
    Ok(b"a dictionary of one's own".to_vec())
}

#[test]
fn compress_with_dict_round_trips_with_zstd_decoder() {
    let payload = b"aaaaabbbbbcccccaaaaabbbbbccccc";
    let dict = b"aaaaabbbbbccccc";
    let compressed = compress_with_dict(payload, dict, &3).unwrap();
    let decoded = decompress_chunk(&compressed, dict).unwrap();

    assert_eq!(decoded, payload);
}

#[test]
fn compress_with_dict_handles_empty_payload() {
    let compressed = compress_with_dict(&[], b"dictionary", &1).unwrap();
    let decoded = decompress_chunk(&compressed, b"dictionary").unwrap();

    assert!(decoded.is_empty());
}

// --- further cases ---

#[test]
fn compression_makes_frames() {
    let payload = vec![7u8; 1000];
    let frame = compress_with_dict(&payload, b"", &5).unwrap();
    assert_ne!(frame, payload);
    assert!(frame.len() < payload.len());
    assert_eq!(&frame[0..4], &[0x28, 0xb5, 0x2f, 0xfd]);
}

#[test]
fn decompressing_rubbish_fails() {
    assert!(matches!(
        decompress_chunk(b"this is no frame", b""),
        Err(SpriteShrinkError::Io(_))
    ));
}

#[test]
fn sequencer_hands_frames_out_in_order() {
    let mut s = ChunkSequencer::new(&[1u64, 2, 3]);
    s.accept(3, vec![3; 5]);
    assert_eq!(s.next().unwrap(), None);
    s.accept(1, vec![1; 2]);
    assert_eq!(s.next().unwrap(), Some(vec![1; 2]));
    assert_eq!(s.next().unwrap(), None);
    assert!(!s.is_done());
    s.accept(2, vec![2; 4]);
    assert_eq!(s.next().unwrap(), Some(vec![2; 4]));
    assert_eq!(s.next().unwrap(), Some(vec![3; 5]));
    assert!(s.is_done());
    let index = s.finish();
    assert_eq!(index.iter().map(|e| e.0).collect::<Vec<_>>(), vec![1, 2, 3]);
    assert_eq!(index.iter().map(|e| e.1.offset).collect::<Vec<_>>(), vec![0, 2, 6]);
    assert_eq!(index.iter().map(|e| e.1.compressed_length).collect::<Vec<_>>(), vec![2, 4, 5]);
}

#[test]
fn compressed_chunks_stand_where_the_index_says() {
    let hashes: Vec<u64> = (0..40).collect();
    let written: RefCell<Vec<u8>> = RefCell::new(Vec::new());
    let dict = b"some dictionary";
    let index = compress_chunks(
        4,
        dict,
        &hashes,
        3,
        |h: &[u64]| -> Result<Vec<(u64, Vec<u8>)>, TestError> {
            Ok(h.iter().rev().map(|h| (*h, chunk(*h))).collect())
        },
        |bytes: &[u8]| -> Result<(), TestError> {
            written.borrow_mut().extend_from_slice(bytes);
            Ok(())
        },
    )
    .unwrap();
    let data = written.into_inner();
    assert_eq!(index.len(), 40);
    let mut end = 0u64;
    for (i, (hash, location)) in index.iter().enumerate() {
        assert_eq!(*hash, i as u64);
        assert_eq!(location.offset, end);
        end += location.compressed_length as u64;
        let frame = &data[location.offset as usize..end as usize];
        assert_eq!(decompress_chunk(frame, dict).unwrap(), chunk(*hash));
    }
    assert_eq!(end, data.len() as u64);
}

#[test]
fn compress_chunks_reports_missing_chunks() {
    let r = compress_chunks(
        1,
        b"",
        &[1u64, 2],
        3,
        |_: &[u64]| -> Result<Vec<(u64, Vec<u8>)>, TestError> { Ok(vec![(1, chunk(1))]) },
        |_: &[u8]| -> Result<(), TestError> { Ok(()) },
    );
    assert!(matches!(r, Err(ArchiveError::WorkerError(_))));
}

#[test]
fn compress_chunks_reports_callback_errors() {
    let read = |cancelled: bool| {
        compress_chunks(
            1,
            b"",
            &[1u64],
            3,
            move |_: &[u64]| -> Result<Vec<(u64, Vec<u8>)>, TestError> {
                Err(TestError { cancelled })
            },
            |_: &[u8]| -> Result<(), TestError> { Ok(()) },
        )
    };
    assert!(matches!(read(true), Err(ArchiveError::Cancelled)));
    match read(false) {
        Err(ArchiveError::External(m)) => assert_eq!(m, "test error"),
        other => panic!("{:?}", other),
    }
    let write = compress_chunks(
        1,
        b"",
        &[1u64],
        3,
        |_: &[u64]| -> Result<Vec<(u64, Vec<u8>)>, TestError> { Ok(vec![(1, chunk(1))]) },
        |_: &[u8]| -> Result<(), TestError> { Err(TestError { cancelled: false }) },
    );
    assert!(write.is_err());
}

#[test]
fn builder_makes_an_archive_that_reads_back() {
    let hashes: Vec<u64> = (0..120).collect();
    let total: u64 = hashes.iter().map(|h| chunk(*h).len() as u64).sum();
    let written: RefCell<Vec<u8>> = RefCell::new(Vec::new());
    let steps: RefCell<Vec<Progress>> = RefCell::new(Vec::new());
    let mut builder = ArchiveBuilder::new(&hashes, total, chunks, |bytes: &[u8], last: bool| {
        let _ = last;
        written.borrow_mut().extend_from_slice(bytes);
        Ok::<(), TestError>(())
    });
    builder.compression_level(3).dictionary_size(1024).worker_threads(2).optimize_dictionary(false);
    let result = builder
        .with_progress(|p: Progress| steps.borrow_mut().push(p))
        .build(&no_optimizer)
        .unwrap();
    assert_eq!(result.dictionary_size as usize, result.dictionary.len());
    assert_eq!(result.enc_chunk_index_size as usize, result.enc_chunk_index.len());
    let index = parse_file_chunk_index::<u64>(&result.enc_chunk_index).unwrap();
    let data = written.into_inner();
    for h in &hashes {
        let at = index[h].offset as usize;
        let frame = &data[at..at + index[h].compressed_length as usize];
        assert_eq!(decompress_chunk(frame, &result.dictionary).unwrap(), chunk(*h));
    }
    let steps = steps.into_inner();
    assert_eq!(steps[0], Progress::GeneratingDictionary);
    assert_eq!(steps[1], Progress::DictionaryDone);
    assert_eq!(steps[2], Progress::Compressing { total_chunks: 120 });
    assert_eq!(steps.iter().filter(|p| **p == Progress::ChunkCompressed).count(), 120);
    assert_eq!(steps.len(), 123);
}

#[test]
fn builder_can_take_its_dictionary_from_an_optimizer() {
    let hashes: Vec<u64> = (0..20).collect();
    let written: RefCell<Vec<u8>> = RefCell::new(Vec::new());
    let mut builder = ArchiveBuilder::new(&hashes, 6000, chunks, |bytes: &[u8], _last: bool| {
        written.borrow_mut().extend_from_slice(bytes);
        Ok::<(), TestError>(())
    });
    builder.optimize_dictionary(true);
    let result = builder.build(&no_optimizer).unwrap();
    assert_eq!(result.dictionary, b"a dictionary of one's own".to_vec());
    let index = parse_file_chunk_index::<u64>(&result.enc_chunk_index).unwrap();
    let data = written.into_inner();
    let at = index[&7].offset as usize;
    let frame = &data[at..at + index[&7].compressed_length as usize];
    assert_eq!(decompress_chunk(frame, &result.dictionary).unwrap(), chunk(7));
}

#[test]
fn archived_file_comes_back() {
    // Three times the same stretch, so that chunks are shared.
    let mut state: u32 = 1;
    let stretch: Vec<u8> = (0..9000)
        .map(|_| {
            state = state.wrapping_mul(1103515245).wrapping_add(12345);
            (state >> 16) as u8
        })
        .collect();
    let file: Vec<u8> = [stretch.clone(), stretch.clone(), stretch].concat();
    let processed = process_file_in_memory(
        FileData { file_name: "rom.bin".to_string(), file_data: file.clone() },
        256,
    )
    .unwrap();
    let (manifest, pairs) =
        create_file_manifest_and_chunks::<u64>(&processed.file_data, &processed.chunks);
    let store: HashMap<u64, Vec<u8>> = pairs.into_iter().collect();
    let hashes: Vec<u64> = store.keys().copied().collect();
    assert!(hashes.len() < manifest.chunk_metadata.len());
    let written: RefCell<Vec<u8>> = RefCell::new(Vec::new());
    let index: HashMap<u64, _> = compress_chunks(
        1,
        b"",
        &hashes,
        5,
        |h: &[u64]| -> Result<Vec<(u64, Vec<u8>)>, TestError> {
            Ok(h.iter().map(|h| (*h, store[h].clone())).collect())
        },
        |bytes: &[u8]| -> Result<(), TestError> {
            written.borrow_mut().extend_from_slice(bytes);
            Ok(())
        },
    )
    .unwrap()
    .into_iter()
    .collect();
    let data = written.into_inner();
    let mut again: Vec<u8> = Vec::new();
    for meta in &manifest.chunk_metadata {
        let at = index[&meta.hash].offset as usize;
        let frame = &data[at..at + index[&meta.hash].compressed_length as usize];
        again.extend(decompress_chunk(frame, b"").unwrap());
    }
    assert_eq!(again, file);
}

#[test]
fn runs_with_other_numbers_of_workers_agree() {
    let hashes: Vec<u64> = (0..1203).rev().collect();
    let run = |workers: usize, backwards: bool| {
        let written: RefCell<Vec<Vec<u8>>> = RefCell::new(Vec::new());
        let index = compress_chunks(
            workers,
            b"some dictionary",
            &hashes,
            1,
            |h: &[u64]| -> Result<Vec<(u64, Vec<u8>)>, TestError> {
                let mut pairs: Vec<(u64, Vec<u8>)> = h.iter().map(|h| (*h, chunk(*h))).collect();
                if backwards {
                    pairs.reverse();
                }
                Ok(pairs)
            },
            |bytes: &[u8]| -> Result<(), TestError> {
                written.borrow_mut().push(bytes.to_vec());
                Ok(())
            },
        )
        .unwrap();
        (index, written.into_inner())
    };
    let (index, frames) = run(1, false);
    assert_eq!(frames.len(), 1203);
    for (workers, backwards) in [(0, false), (4, true), (16, false)] {
        let (other_index, other_frames) = run(workers, backwards);
        assert_eq!(other_index, index);
        assert_eq!(other_frames, frames);
    }
}

#[test]
fn frames_are_counted_in_place_of_written() {
    let hashes: Vec<u64> = (0..30).collect();
    let get = |h: &[u64]| chunks(h);
    let mut sink = CountSink { size: 5 };
    let index =
        run_compression(b"dict", &hashes, 3, &ListSource { get: &get }, &mut sink).unwrap();
    let last = index[29].1;
    assert_eq!(sink.size as u64, 5 + last.offset + last.compressed_length as u64);
    let frame = compress_with_dict(&chunk(29), b"dict", &3).unwrap();
    assert_eq!(last.compressed_length as usize, frame.len());
}
