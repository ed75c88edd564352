//! Errors of the engine.
use vstd::prelude::*;

verus! {

/// Errors reported to the clients of the engine.
#[derive(Clone, Debug, PartialEq, Eq)]
pub enum CSError {
    General(String),
    EcnuNotLogin,
    RoomConfigMissing,
    EmptyArchive,
    ArchiveDir,
    RoomDir,
    ListArchive,
    SaveArchiveMeta,
    SerializeMeta,
    WriteArchive,
    SerializeRecords,
    DuplicatedArchive,
    ReadRecords,
    QueryDegree,
    SaveRoomConfig,
    InvalidArchiveName,
    ArchiveNotFound,
    DeletedArchiveFailed,
    InvalidRoomConfig,
    RoomInfoNotFound,
    InvalidCookies,
    ServerRequestError,
}

/// Errors of the log and of the clock.
#[derive(Clone, Debug, PartialEq, Eq)]
pub enum Error {
    /// A non-empty line of the log holds no sample.
    InvalidRecordsFormat,
    /// The clock gave an instant outside the range the log carries.
    ClockOutOfRange,
    /// An error to report as it stands.
    CS(CSError),
}

} // verus!
