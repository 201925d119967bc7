use std::fmt;

use dashmap::DashMap;
use sprite_shrink::error::{IsCancelled, SpriteShrinkError};
use sprite_shrink::serialization::{
    dashmap_values_to_vec, serialize_files, serialize_store, serialize_uncompressed_data,
    SerializationError,
};
use sprite_shrink::structs::{FileManifestParent, SSAChunkMeta};

#[derive(Debug)]
struct TestError {
    message: &'static str,
    cancelled: bool,
}

impl fmt::Display for TestError {
    fn fmt(&self, f: &mut fmt::Formatter<'_>) -> fmt::Result {
        f.write_str(self.message)
    }
}

impl std::error::Error for TestError {}

impl IsCancelled for TestError {
    fn is_cancelled(&self) -> bool {
        self.cancelled
    }
}

fn manifest_with_chunks(chunks: Vec<SSAChunkMeta<u64>>) -> FileManifestParent<u64> {
    FileManifestParent {
        chunk_count: chunks.len() as u64,
        chunk_metadata: chunks,
    }
}

#[test]
fn dashmap_values_to_vec_clones_all_values() {
    let map = DashMap::new();
    map.insert("a", 1u64);
    map.insert("b", 2u64);

    let mut values = dashmap_values_to_vec(&map);
    values.sort();

    assert_eq!(values, vec![1, 2]);
}

#[test]
fn serialize_store_assigns_offsets_in_hash_order() {
    let hashes = vec![10u64, 20u64, 30u64];

    let index = serialize_store(&hashes, &|requested: &[u64]| {
        Ok::<_, TestError>(
            requested
                .iter()
                .map(|hash| vec![*hash as u8; (*hash / 10) as usize])
                .collect(),
        )
    })
    .unwrap();

    assert_eq!(index[&10].offset, 0);
    assert_eq!(index[&10].compressed_length, 1);
    assert_eq!(index[&20].offset, 1);
    assert_eq!(index[&20].compressed_length, 2);
    assert_eq!(index[&30].offset, 3);
    assert_eq!(index[&30].compressed_length, 3);
}

#[test]
fn serialize_store_rejects_empty_chunk_data() {
    let err = serialize_store(&[42u64], &|_: &[u64]| Ok::<_, TestError>(vec![Vec::new()]))
        .unwrap_err();

    assert!(matches!(err, SerializationError::MissingChunk(message) if message == "42"));
}

#[test]
fn serialize_store_wraps_callback_error() {
    let err = serialize_store(&[42u64], &|_: &[u64]| -> Result<Vec<Vec<u8>>, TestError> {
        Err(TestError {
            message: "callback failed",
            cancelled: false,
        })
    })
    .unwrap_err();

    assert!(
        matches!(err, SerializationError::External(message) if message == "callback failed")
    );
}

#[test]
fn serialize_uncompressed_data_sorts_toc_and_manifest_by_filename() {
    let file_manifest = DashMap::new();
    file_manifest.insert(
        "zeta.bin".to_string(),
        manifest_with_chunks(vec![SSAChunkMeta {
            hash: 2,
            offset: 0,
            length: 2,
        }]),
    );
    file_manifest.insert(
        "alpha.bin".to_string(),
        manifest_with_chunks(vec![SSAChunkMeta {
            hash: 1,
            offset: 0,
            length: 1,
        }]),
    );

    let serialized = serialize_uncompressed_data(
        &file_manifest,
        &|| Ok::<_, TestError>(vec![1u64, 2u64]),
        &|hashes: &[u64]| {
            Ok::<_, TestError>(hashes.iter().map(|hash| vec![*hash as u8]).collect())
        },
    )
    .unwrap();

    assert_eq!(serialized.archive_toc[0].filename, "alpha.bin");
    assert_eq!(serialized.archive_toc[1].filename, "zeta.bin");
    assert_eq!(serialized.ser_file_manifest[0].chunk_metadata[0].hash, 1);
    assert_eq!(serialized.ser_file_manifest[1].chunk_metadata[0].hash, 2);
}

#[test]
fn serialize_uncompressed_data_propagates_cancelled_key_callback() {
    let file_manifest: DashMap<String, FileManifestParent<u64>> = DashMap::new();

    let err = serialize_uncompressed_data(
        &file_manifest,
        &|| {
            Err::<Vec<u64>, _>(TestError {
                message: "cancelled",
                cancelled: true,
            })
        },
        &|_: &[u64]| Ok::<_, TestError>(Vec::new()),
    )
    .unwrap_err();

    assert!(matches!(err, SpriteShrinkError::Cancelled));
}

// --- further cases ---

fn meta(hash: u64, offset: u64, length: u32) -> SSAChunkMeta<u64> {
    SSAChunkMeta { hash, offset, length }
}

#[test]
fn sizes_in_the_table_are_those_of_the_files() {
    let files = vec![
        ("b".to_string(), manifest_with_chunks(vec![meta(1, 0, 5), meta(2, 5, 6)])),
        ("a".to_string(), manifest_with_chunks(vec![meta(2, 0, 6)])),
        ("aa".to_string(), manifest_with_chunks(vec![])),
    ];
    let serialized = serialize_files(
        files,
        &|| Ok::<_, TestError>(vec![2u64, 1u64]),
        &|hashes: &[u64]| {
            Ok::<_, TestError>(hashes.iter().map(|h| vec![0u8; 4 + *h as usize]).collect())
        },
    )
    .unwrap();
    let names: Vec<&str> = serialized.archive_toc.iter().map(|e| e.filename.as_str()).collect();
    assert_eq!(names, vec!["a", "aa", "b"]);
    let sizes: Vec<u64> = serialized.archive_toc.iter().map(|e| e.uncompressed_size).collect();
    assert_eq!(sizes, vec![6, 0, 11]);
    let mut kept = serialized.sorted_hashes.clone();
    kept.sort();
    assert_eq!(kept, vec![1, 2]);
    let mut end = 0;
    for h in &serialized.sorted_hashes {
        let place = serialized.chunk_index[h];
        assert_eq!(place.offset, end);
        assert_eq!(place.compressed_length as u64, 4 + *h);
        end += place.compressed_length as u64;
    }
}

#[test]
fn failing_chunk_callback_is_reported() {
    let files = vec![("a".to_string(), manifest_with_chunks(vec![meta(1, 0, 5)]))];
    let err = serialize_files(files, &|| Ok::<_, TestError>(vec![1u64]), &|_: &[u64]| {
        Err::<Vec<Vec<u8>>, _>(TestError { message: "no chunks", cancelled: false })
    })
    .unwrap_err();
    assert!(matches!(err, SpriteShrinkError::Serialization(SerializationError::External(m)) if m == "no chunks"));
}

#[test]
fn failing_key_callback_is_reported() {
    let err = serialize_files(
        Vec::new(),
        &|| Err::<Vec<u64>, _>(TestError { message: "no keys", cancelled: false }),
        &|_: &[u64]| Ok::<_, TestError>(Vec::new()),
    )
    .unwrap_err();
    assert!(!matches!(err, SpriteShrinkError::Cancelled));
}

#[test]
fn store_asks_for_all_chunks() {
    let hashes: Vec<u64> = (1..300).collect();
    let index = serialize_store(&hashes, &|h: &[u64]| {
        Ok::<_, TestError>(h.iter().map(|h| vec![1u8; (*h % 7 + 1) as usize]).collect())
    })
    .unwrap();
    assert_eq!(index.len(), 299);
    let mut end = 0u64;
    for h in &hashes {
        assert_eq!(index[h].offset, end);
        end += *h % 7 + 1;
    }
}

#[test]
fn chunks_that_are_not_handed_out_are_missing() {
    let known = |h: &[u64]| -> Result<Vec<Vec<u8>>, TestError> {
        Ok(h.iter().filter(|h| **h < 10).map(|h| vec![1u8; *h as usize]).collect())
    };
    let index = serialize_store(&[4u64, 9], &known).unwrap();
    assert_eq!(index[&9].offset, 4);
    for hash in [0u64, 12] {
        match serialize_store(&[4, hash], &known) {
            Err(SerializationError::MissingChunk(m)) => assert_eq!(m, hash.to_string()),
            other => panic!("{:?}", other),
        }
    }
}
