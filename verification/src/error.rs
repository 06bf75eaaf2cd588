//! The errors that the client reports.

use vstd::prelude::*;

verus! {

/// Why a buffer of received bytes does not yield a message.
#[derive(Debug, Clone, Copy, PartialEq, Eq, Structural)]
pub enum DecodeError {
    /// There is no whole frame yet and nothing wrong so far: more bytes are
    /// needed.
    Incomplete,
    /// No frame can come of the bytes, whatever follows them.
    Malformed,
}

/// Why [`crate::client::Client::start`] or
/// [`crate::client::Client::established`] did not open the connection.
#[derive(Debug, Clone, Copy, PartialEq, Eq, Structural)]
pub enum ConnectError {
    /// The client is not in the state that the step starts from.
    Busy,
    /// The transport could not be established.
    Unreachable,
}

/// A sequence number was registered while a call with the same number was
/// still pending.
#[derive(Debug, Clone, Copy, PartialEq, Eq, Structural)]
pub struct DuplicateSequence {
    pub seq: u64,
}

/// Why a call did not return a reply.
#[derive(Debug, Clone, PartialEq, Eq)]
pub enum CallError {
    /// The call was attempted while the connection was not open.
    NotConnected,
    /// The connection was torn down while the call was pending.
    ConnectionClosed,
    /// The server answered with an error status; the text is its message,
    /// empty where it sent none.
    Server(String),
    /// Every sequence number of the connection has been used.
    SequenceExhausted,
}

} // verus!
