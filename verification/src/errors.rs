use vstd::prelude::*;

verus! {

/// A half-open byte range `[start, end)` of the content object.
#[derive(Clone, Copy, PartialEq, Eq, Structural, Debug)]
pub struct ByteRange {
    pub start: u64,
    pub end: u64,
}

/// Failure of the persistent cache store.
#[derive(Clone, Copy, PartialEq, Eq, Structural, Debug)]
pub enum CacheError {
    Io,
}

/// Failure of descriptor decoding.
#[derive(Clone, Copy, PartialEq, Eq, Structural, Debug)]
pub enum CodecError {
    Malformed,
}

/// Failure of the ranged origin download.
#[derive(Clone, Copy, PartialEq, Eq, Structural, Debug)]
pub enum DownloadError {
    /// The origin did not report a content length, so ranges cannot be planned.
    LengthUnknown,
    /// One partition request failed after its retries were exhausted.
    PartialFailure(ByteRange),
    Timeout,
}

/// Failure of the distribution (peer-swarm) subsystem.
#[derive(Clone, Copy, PartialEq, Eq, Structural, Debug)]
pub enum DistributionError {
    Timeout,
    SwarmFailure,
    InvalidDescriptor,
}

/// Failure of one tracker-sync connection.
#[derive(Clone, Copy, PartialEq, Eq, Structural, Debug)]
pub enum TrackerError {
    PayloadTooLarge,
    Malformed,
    Io,
}

/// The cause carried by a fetch session's terminal `Failed` state.
#[derive(Clone, Copy, PartialEq, Eq, Structural, Debug)]
pub enum FetchFailure {
    Codec(CodecError),
    Origin(DownloadError),
    Distribution(DistributionError),
}

} // verus!
