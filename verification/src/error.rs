//! Errors that cross module boundaries.

use vstd::prelude::*;
use crate::archive::ArchiveError;
use crate::mapper::MapperError;
use crate::parsing::ParsingError;
use crate::processing::ProcessingError;
use crate::reconstruction::ReconstructionError;
use crate::serialization::SerializationError;

verus! {

/// The error of an input or output operation, carried through unexamined.
#[verifier::external_type_specification]
#[verifier::external_body]
pub struct ExIoError(std::io::Error);

/// What can go wrong when working with an archive.
#[derive(Debug)]
pub enum SpriteShrinkError {
    Archive(ArchiveError),
    Cancelled,
    External(String),
    Io(std::io::Error),
    Parsing(ParsingError),
    Processing(ProcessingError),
    Serialization(SerializationError),
}

/// An error that may stand for the user's wish to stop.
pub trait IsCancelled {
    /// Whether the error stands for the user's wish to stop.
    fn is_cancelled(&self) -> bool;
}

/// Why a sector could not be classified.
#[derive(Debug)]
pub struct AnalysisError {
    pub message: String,
}

/// What can go wrong when working with a disc.
#[derive(Debug)]
pub enum SpriteShrinkCDError {
    Analysis(AnalysisError),
    External(String),
    Io(std::io::Error),
    Mapper(MapperError),
    Reconstruction(ReconstructionError),
}

} // verus!
