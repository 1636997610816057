use vstd::prelude::*;

verus! {

/// Why a request for zeros could not be served to its end.
///
/// Reaching the requested amount, or the consumer closing the stream, is a
/// clean end and never an error.
#[derive(Clone, Copy, Debug, PartialEq, Eq, Structural)]
pub enum Error {
    /// The manifest could not be fetched.
    ManifestUnavailable,
    /// A line of the manifest does not have the expected shape.
    ManifestMalformed,
    /// The index database could not be opened or queried.
    IndexUnavailable,
    /// The index holds no block for the requested start.
    IndexMiss,
    /// A data file could not be fetched.
    TransportError,
    /// A data file ended in the middle of a field.
    TruncatedStream,
    /// A block header is malformed, or the deltas of a block overflow.
    DecodeError,
    /// A reader was asked to go back to a position it has already passed.
    SeekBackward,
}

} // verus!
