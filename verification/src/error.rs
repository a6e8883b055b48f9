use vstd::prelude::*;

verus! {

/// Failure kinds reported by the store.
///
/// Every operation returns one of these rather than aborting: callers can
/// tell a retryable I/O fault apart from a logic error such as asking for a
/// stream that was never appended to.
#[derive(Clone, Copy, Debug, PartialEq, Eq, Structural)]
pub enum Error {
    /// The requested stream id is absent from the buffer or segment index.
    StreamNotFound,
    /// A read window exceeds the buffered or stored extent of the stream.
    OutOfRange,
    /// A file could not be created, written, synced, renamed or mapped.
    IoError,
    /// The injected start-offset resolver failed; propagated unchanged.
    OffsetResolution,
}

} // verus!
