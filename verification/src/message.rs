//! The values that pass between the transport side and the callers.

use vstd::prelude::*;

verus! {

/// The status that a reply carries.
#[derive(Debug, Clone, Copy, PartialEq, Eq, Structural)]
pub enum ReplyStatus {
    Normal,
    Error,
}

/// A decoded message from the server.
#[derive(Debug, Clone, PartialEq, Eq)]
pub struct Inbound {
    /// The sequence number of the call that this message answers.
    pub seq: u64,
    pub status: ReplyStatus,
    /// The server's error message, if it sent one with an error status.
    pub error: Option<String>,
    /// The reply as the server serialized it.
    pub payload: Vec<u8>,
}

/// An [`Inbound`] as mathematical values.
pub struct InboundView {
    pub seq: u64,
    pub status: ReplyStatus,
    pub error: Option<Seq<char>>,
    pub payload: Seq<u8>,
}

impl View for Inbound {
    type V = InboundView;

    open spec fn view(&self) -> InboundView {
        InboundView {
            seq: self.seq,
            status: self.status,
            error: match self.error {
                Some(text) => Some(text@),
                None => None,
            },
            payload: self.payload@,
        }
    }
}

/// Why a call ended without a reply.
#[derive(Debug, Clone, Copy, PartialEq, Eq, Structural)]
pub enum Failure {
    /// The connection was torn down while the call was pending.
    ConnectionClosed,
}

/// What is written into the result slot of a call, once.
#[derive(Debug, Clone, PartialEq, Eq)]
pub enum Outcome {
    Reply(Inbound),
    Failed(Failure),
}

/// An instruction to the program around the library: put `outcome` into
/// `slot`, which belongs to the call `seq`.
#[derive(Debug)]
pub struct Delivery<S> {
    pub seq: u64,
    pub slot: S,
    pub outcome: Outcome,
}

/// An encoded request on its way to the transport.
#[derive(Debug, Clone, PartialEq, Eq)]
pub struct OutboundFrame {
    /// The sequence number that the frame carries.
    pub seq: u64,
    /// The bytes to write.
    pub data: Vec<u8>,
}

} // verus!
