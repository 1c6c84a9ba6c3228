//! The ways a connection ends.

use vstd::prelude::*;

verus! {

/// Why a connection stopped. Every kind is fatal to the connection: none is
/// retried or suppressed.
#[derive(Clone, Copy, Debug, PartialEq, Eq, Structural)]
pub enum Error {
    /// A numeric field of a frame did not parse.
    Number,
    /// A timestamp field of a frame did not parse.
    Timestamp,
    /// A floating-point field of a frame did not parse.
    Float,
    /// A read or write on the stream failed, or the stream ended.
    Tcp,
    /// The consumer's end of the channel is closed.
    Channel,
}

} // verus!
