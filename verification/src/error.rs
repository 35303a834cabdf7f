//! What can go wrong when one document is turned into the other.

use vstd::prelude::*;

verus! {

/// Why a conversion failed. A failed conversion yields no document at all.
#[derive(Debug, PartialEq, Eq, Clone, Copy)]
pub enum Error {
    /// The document is defective: a required codec field is missing, a number
    /// or a name cannot be read, or a hash function is not supported.
    InvalidSignalingDocument,
    /// The address of the initiator or of the responder is malformed.
    InvalidIdentity,
    /// The operation is known but not provided.
    Unsupported,
}

impl Error {
    /// A short description of the error.
    pub fn message(&self) -> (out: &'static str)
        ensures
            out@ == match self {
                Error::InvalidSignalingDocument => "invalid Jingle IQ"@,
                Error::InvalidIdentity => "invalid JID"@,
                Error::Unsupported => "unsupported operation"@,
            },
    {
        match self {
            Error::InvalidSignalingDocument => "invalid Jingle IQ",
            Error::InvalidIdentity => "invalid JID",
            Error::Unsupported => "unsupported operation",
        }
    }
}

} // verus!
