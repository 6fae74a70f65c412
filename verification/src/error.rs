use vstd::prelude::*;

verus! {

/// Closed enumeration of the engine's failure sites. Persistence failures name
/// the artifact that failed so that callers can react per failure site.
#[derive(Debug, PartialEq, Eq)]
pub enum Error {
    /// An append was attempted on a partition that has no segments at all.
    SegmentNotFound,
    /// The segment's log file could not be created.
    CannotCreatePartitionSegmentLogFile(String),
    /// The segment's index file could not be created.
    CannotCreatePartitionSegmentIndexFile(String),
    /// The segment's time-index file could not be created.
    CannotCreatePartitionSegmentTimeIndexFile(String),
    /// The initial 8-byte sentinel could not be written to the index file.
    CannotSaveIndexToSegment,
    /// A segment log file does not hold a valid sequence of message records.
    CannotReadMessage,
    /// A segment time-index file does not hold a whole number of entries.
    CannotReadTimeIndex,
}

} // verus!
