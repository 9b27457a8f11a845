//! Errors of the peer protocol.

use vstd::prelude::*;

verus! {

/// What went wrong while talking to peers.
#[derive(Debug)]
pub enum PeerError {
    NoPool,
    FailedToCreateConnection,
    UnableToConnect,
    ConnectionDenied,
}

impl PeerError {
    /// The sentence that describes the error.
    pub fn message(&self) -> (text: &'static str)
        ensures
            text@ == match self {
                PeerError::NoPool => "No connection available"@,
                PeerError::FailedToCreateConnection => "Failed to create connection"@,
                PeerError::UnableToConnect => "Unable to connect to the peer"@,
                PeerError::ConnectionDenied => "Connection request was rejected"@,
            },
    {
        match self {
            PeerError::NoPool => "No connection available",
            PeerError::FailedToCreateConnection => "Failed to create connection",
            PeerError::UnableToConnect => "Unable to connect to the peer",
            PeerError::ConnectionDenied => "Connection request was rejected",
        }
    }
}

} // verus!
