use vstd::prelude::*;

verus! {

/// Why an extraction attempt or a cancellation request failed.
#[derive(Debug, PartialEq, Eq)]
pub enum UnsquashfsError {
    /// The external extraction binary could not be resolved on the host.
    BinaryNotFound,
    /// A supplied path cannot be represented in the form the child invocation
    /// needs.
    InvalidPath,
    /// An operating-system failure during spawn, stream read, liveness check
    /// or termination; carries the underlying detail as bytes.
    IO(Vec<u8>),
    /// `cancel` was called while no extraction was in flight.
    NotRunning,
    /// The child exited with a non-zero status; carries the exit code and the
    /// diagnostic transcript accumulated from its output.
    Failure(i32, Vec<u8>),
    /// The attempt was terminated because cancellation was requested.
    Cancelled,
}

} // verus!
