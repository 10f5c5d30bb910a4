use vstd::prelude::*;

verus! {

/// The kinds of failure that the store reports.
#[derive(Clone, Copy, Debug, PartialEq, Eq, Structural)]
pub enum Errors {
    KeyIsEmpty,
    KeyNotFound,
    IndexUpdateFailed,
    FailedToOpenDataFile,
    FailedReadFromDataFile,
    FailedWriteToDataFile,
    FailedSyncDataFile,
    ReadDataFileEOF,
    DataFileNotFound,
    CorruptRecord,
    DataDirectoryCorrupted,
    DatabaseIsUsing,
    InvalidMergeRatio,
    MergeInProgress,
    MergeRatioUnreached,
}

pub type Result<T> = core::result::Result<T, Errors>;

} // verus!
