//! The failure kinds of the engine and the capability contract a network
//! backend satisfies.

use vstd::prelude::*;

verus! {

/// Everything a mesher operation can fail with.
#[derive(Debug)]
#[non_exhaustive]
pub enum TransportFail {
    /// The packet bytes received are not validly framed.
    InvalidPacket,
    /// The URL is syntactically invalid.
    InvalidURL(String),
    /// The scheme has not been registered with the mesher.
    UnregisteredScheme(String),
    /// A backend could not be set up for its scheme.
    SetupFailure(String),
    /// Data could not be sent along the given path.
    SendFailure(String),
    /// Listening along the given path could not start.
    ListenFailure(String),
    /// Data could not be pulled down from listened paths.
    ReceiveFailure(String),
    /// An operation needed one of the mesher's own keys, but none is
    /// configured.
    NoKeys,
    /// An arbitrary other error, described in text.
    Other(String),
}

/// What a pluggable network backend must offer: construction by scheme,
/// sending, listening, and a non-blocking drain of whatever has already
/// arrived.  Every call may fail, and the mesher propagates the failure
/// unchanged; no promise is made about delivery or ordering.
pub trait Transport: Sized {
    /// Builds a backend for the given scheme.
    fn new(scheme: &str) -> Result<Self, TransportFail>;

    /// Sends a blob of bytes along a path.
    fn send(&mut self, path: String, blob: Vec<u8>) -> Result<(), TransportFail>;

    /// Starts listening for packets along a path.
    fn listen(&mut self, path: String) -> Result<(), TransportFail>;

    /// Hands over every packet that has already arrived, without blocking.
    fn receive(&mut self) -> Result<Vec<Vec<u8>>, TransportFail>;
}

} // verus!
