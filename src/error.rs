//! The error taxonomy of the store.
use vstd::prelude::*;

verus! {

/// Why an operation failed. An absent key is not an error: lookups return
/// `None` for it.
#[derive(Clone, Copy, Debug, PartialEq, Eq, Structural)]
pub enum Error {
    /// A checksum mismatch or a malformed block, record or manifest entry.
    Corruption,
    /// A failure of the underlying storage.
    IoError,
    /// A misuse of the interface, rejected at call time.
    InvalidArgument,
    /// Writes are stopped by backpressure until a flush or a compaction
    /// reduces the pressure.
    Busy,
    /// Transient contention; the caller may retry.
    TryAgain,
    /// The store is closing.
    ShutdownInProgress,
    /// A background error was raised and has not been cleared.
    Background,
}

} // verus!
