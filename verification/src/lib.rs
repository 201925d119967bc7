//! Deduplicating archives for disc images and ROM sets.

pub mod archive;
pub mod archive_parser;
pub mod assembly;
pub mod blocks;
pub mod codec;
pub mod cue_gen;
pub mod cue_parser;
pub mod cue_roundtrip;
pub mod disc;
pub mod ecc;
pub mod error;
pub mod fetch;
pub mod hashing;
pub mod mapper;
pub mod parsing;
pub mod processing;
pub mod reconstruction;
pub mod roundtrip;
pub mod serialization;
pub mod sorting;
pub mod stream;
pub mod structs;
pub mod text;
