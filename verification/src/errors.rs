//! The outcomes an operation can refuse with.

use vstd::prelude::*;

verus! {

/// Why a registry or hub operation was refused. The gateway maps each
/// variant to one HTTP status code.
#[derive(Clone, Copy, Debug, PartialEq, Eq, Structural)]
pub enum ServiceError {
    /// The named session does not exist.
    NotFound,
    /// The session is at capacity and the joiner is not already in it.
    Conflict,
    /// A malformed request: an empty title, or a leave by a non-participant.
    InvalidArgument,
    /// A signaling attach by someone who is not a participant.
    Forbidden,
}

} // verus!
