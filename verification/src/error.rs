//! The failures that the log reports, grouped by the operation that met them.

use vstd::prelude::*;
use crate::frame::Frame;

verus! {

/// Why an access to a chunk's storage failed.
#[derive(Debug, Clone, Copy, PartialEq, Eq, Structural)]
pub enum Fault {
    /// The storage does not exist.
    NotFound,
    /// The storage exists already.
    AlreadyExists,
    /// The caller may not access the storage.
    PermissionDenied,
    /// A read ran past the end of the storage.
    UnexpectedEof,
    /// A write ran past the end of the storage.
    WriteZero,
    /// The bytes read cannot be what the format lays down.
    InvalidData,
    /// Any other failure of the system underneath.
    Other,
}

/// Failures while a backlog or one of its chunks is created or opened.
#[derive(Debug, PartialEq, Eq)]
pub enum InitError {
    /// The path to the backlog has no file name to take a stem from.
    NoStem { path: Vec<u8> },
    /// The path to the backlog names no containing directory.
    NoParent { path: Vec<u8> },
    /// The extension of a chunk file carries digits that are no valid suffix.
    InvalidSuffix { path: Vec<u8>, suffix: Vec<u8> },
    /// The directory that holds the backlog could not be listed.
    DirReadError { path: Vec<u8>, source: Fault },
    /// The chunk file to open does not exist.
    DoesNotExist { path: Vec<u8>, source: Fault },
    /// The chunk file to create exists already.
    AlreadyExists { path: Vec<u8>, source: Fault },
    /// The chunk file may not be created, opened, read or written.
    InsufficientRights { path: Vec<u8>, source: Fault },
    /// The header of a chunk could not be read, or contradicts the chunk.
    HeaderReadError { path: Vec<u8>, source: Fault },
    /// The header of a new chunk could not be written.
    HeaderWriteError { path: Vec<u8>, source: Fault },
    /// The space for a new chunk could not be set aside.
    InsufficientSpace { path: Vec<u8>, source: Fault },
    /// Any other failure while the backlog's files were looked up.
    Unknown { path: Vec<u8>, source: Fault },
}

/// Failures while entries are read and removed.
#[allow(inconsistent_fields)]
#[derive(Debug, PartialEq, Eq)]
pub enum ReadError {
    /// The frame at the read cursor could not be read in full.
    ReadError { path: Vec<u8>, source: Fault },
    /// The stored checksum of a frame differs from the one its bytes give.
    InvalidChecksum { path: Vec<u8>, offset: u64, data: Vec<u8>, expected: u32, actual: u32 },
    /// The payload of a sound frame does not decode to an entry.
    DeserializeError { path: Vec<u8>, offset: u64, source: String },
    /// The read cursor could not be moved past the frames consumed.
    AdvanceError { path: Vec<u8>, source: Fault },
    /// Any other failure of the storage underneath.
    IoError { source: Fault },
}

/// Failures while entries are read without being removed.
#[allow(inconsistent_fields)]
#[derive(Debug, PartialEq, Eq)]
pub enum PeekError {
    /// The read itself failed.
    ReadError { source: ReadError },
    /// The stored checksum of a frame differs from the one its bytes give.
    InvalidChecksum { path: Vec<u8>, offset: u64, data: Vec<u8>, expected: u32, actual: u32 },
    /// The payload of a sound frame does not decode to an entry.
    DeserializeError { path: Vec<u8>, offset: u64, source: String },
}

impl From<ReadError> for PeekError {
    /// A failed read is a failed peek.
    fn from(source: ReadError) -> (e: PeekError)
    {
        PeekError::ReadError { source }
    }
}

impl vstd::std_specs::convert::FromSpecImpl<ReadError> for PeekError {
    open spec fn obeys_from_spec() -> bool {
        true
    }

    open spec fn from_spec(source: ReadError) -> PeekError {
        PeekError::ReadError { source }
    }
}

/// Failures while entries are appended.
#[derive(Debug, PartialEq, Eq)]
pub enum WriteError {
    /// The chunk has too little room left; the frame comes back to the caller.
    ChunkFull { path: Vec<u8>, size: usize, max_size: usize, frame: Frame },
    /// A chunk file could not be renamed while the chain was rotated.
    RotationError { path: Vec<u8>, source: Fault },
    /// The frame or the header could not be written or made durable.
    IoError { path: Vec<u8>, source: Fault },
}

} // verus!
