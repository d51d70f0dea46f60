use vstd::prelude::*;

verus! {

/// Every failure that the engine reports to its callers.
#[derive(Debug, PartialEq, Clone)]
pub enum Errors {
    FailToReadFromDataFile(String),
    FailToSyncDataFile(String),
    FailToWriteToDataFile(String),
    FailToOpenDataFile(String),
    FailToCloseDataFile(String),
    EmptyKey,
    FailToUpdateIndex,
    KeyNotFound,
    LoadIndexFailed,
    DataFileNotFound,
    InvalidDatabasePath,
    DatafileSizeTooSmall,
    FailToCreateDatabaseDirectory,
    FailToReadDatabaseDirectory,
    DatabaseFileCorrupted,
    ReadEOF,
    ExceedBatchMaxSize,
    EncodingError,
    DecodingError,
    InitializeFailed,
}

pub type Result<T> = core::result::Result<T, Errors>;

} // verus!
