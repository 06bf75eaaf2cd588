//! The frame codec, which this crate uses and does not implement.
//!
//! Encoding and decoding are the work of `rpcx_protocol`. What stands here
//! is what this crate relies on: the calls, what it believes of them, and
//! the checks that it makes itself before it hands bytes over.

use crate::error::DecodeError;
use crate::frame::{check, check_spec, lemma_well_formed_is_whole, well_formed};
use crate::frame::lemma_whole_frame_is_well_formed;
use crate::frame::{is_compressed, method_bytes, path_bytes, payload_bytes, reports_error};
use crate::frame::{MAGIC_NUMBER, PREFIX_LEN};
use crate::message::{Inbound, InboundView, ReplyStatus};
use rpcx_protocol::message::{Message, MessageStatusType, MessageType, RpcxMessage};
use std::collections::HashMap;
use vstd::prelude::*;
use vstd::slice::slice_subrange;
use vstd::utf8::{encode_utf8, valid_utf8};

verus! {

/// The error type of `rpcx_protocol`. Nothing is known of a value of it.
#[verifier::external_type_specification]
#[verifier::external_body]
pub struct ExProtocolError(rpcx_protocol::Error);

/// The protocol version that this client speaks.
pub const PROTOCOL_VERSION: u8 = 0;

/// The two kinds of message.
#[derive(Debug, Clone, Copy, PartialEq, Eq, Structural)]
pub enum MessageKind {
    Request,
    Response,
}

/// A message to encode.
struct Outgoing {
    version: u8,
    kind: MessageKind,
    seq: u64,
    service_path: String,
    service_method: String,
    metadata: HashMap<String, String>,
    payload: Vec<u8>,
}

/// The big-endian number in the eight bytes of `b` from `at` on.
pub open spec fn be_u64(b: Seq<u8>, at: int) -> nat {
    (b[at] as nat) * 0x100_0000_0000_0000 + (b[at + 1] as nat) * 0x1_0000_0000_0000 + (b[at
        + 2] as nat) * 0x100_0000_0000 + (b[at + 3] as nat) * 0x1_0000_0000 + (b[at + 4] as nat)
        * 0x100_0000 + (b[at + 5] as nat) * 0x1_0000 + (b[at + 6] as nat) * 0x100 + (b[at
        + 7] as nat)
}

/// The flag byte of a plain message of this kind: not a heartbeat, not
/// one-way, not compressed, status normal.
pub open spec fn kind_flags(kind: MessageKind) -> u8 {
    match kind {
        MessageKind::Request => 0x00,
        MessageKind::Response => 0x80,
    }
}

/// Whether `frame` begins with the header of a plain message of this version
/// and kind with this sequence number, serialization not named.
pub open spec fn carries(frame: Seq<u8>, version: u8, kind: MessageKind, seq: u64) -> bool {
    &&& frame.len() >= PREFIX_LEN
    &&& frame[0] == MAGIC_NUMBER
    &&& frame[1] == version
    &&& frame[2] == kind_flags(kind)
    &&& frame[3] == 0
    &&& be_u64(frame, 4) == seq
}

/// Whether `frame` is a frame of a plain message with this header, service
/// path, service method and payload. The header is always there. The rest is
/// as the layout of a frame has it, as long as the part behind the length
/// field is short enough for its length to be written in 32 bits; a longer
/// one is not a frame that can be read back. Nothing is said of the metadata
/// but that it is laid out as metadata is.
pub open spec fn encodes(
    frame: Seq<u8>,
    version: u8,
    kind: MessageKind,
    seq: u64,
    service_path: Seq<char>,
    service_method: Seq<char>,
    payload: Seq<u8>,
) -> bool {
    &&& carries(frame, version, kind, seq)
    &&& frame.len() - PREFIX_LEN <= u32::MAX ==> {
        &&& well_formed(frame)
        &&& path_bytes(frame) == encode_utf8(service_path)
        &&& method_bytes(frame) == encode_utf8(service_method)
        &&& payload_bytes(frame) == payload
    }
}

/// The status that a flag byte stands for.
pub open spec fn status_of(flags: u8) -> ReplyStatus {
    if reports_error(flags) {
        ReplyStatus::Error
    } else {
        ReplyStatus::Normal
    }
}

/// Whether `m` is a reading of the well-formed frame `frame`: the sequence
/// number is the big-endian number in the last eight bytes of the header, the
/// status is the one in the flag byte, a message with normal status has no
/// error message, and the payload is the last field of the frame unless the
/// flag byte says that it is compressed.
pub open spec fn reads(m: InboundView, frame: Seq<u8>) -> bool {
    &&& m.seq == be_u64(frame, 4)
    &&& m.status == status_of(frame[2])
    &&& m.status == ReplyStatus::Normal ==> m.error is None
    &&& !is_compressed(frame[2]) ==> m.payload == payload_bytes(frame)
}

/// Whether the bytes are valid UTF-8.
///
/// Calls `std::str::from_utf8`, which by its documentation succeeds exactly
/// on valid UTF-8. The contract is believed, not proved.
#[verifier::external_body]
pub(crate) fn is_utf8(bytes: &[u8]) -> (ok: bool)
    ensures
        ok == valid_utf8(bytes@),
{
    std::str::from_utf8(bytes).is_ok()
}

/// The bytes of a message.
///
/// Fills a fresh `rpcx_protocol::Message` and calls its `encode`. Believed of
/// the result, not proved: it begins with the 12-byte header, which holds the
/// magic number, the version, the kind in the top bit of the flag byte and
/// the sequence number in big-endian order in its last eight bytes. Behind it
/// stand the length of the rest and the four fields, each behind its length:
/// the service path and the service method in UTF-8, the metadata, and the
/// payload as given, since a fresh message is not compressed. The lengths
/// are written in 32 bits, so the layout is claimed only where they fit.
/// Nothing is claimed of the order of the metadata, which is that of a hash
/// map.
#[verifier::external_body]
fn encode_message(m: Outgoing) -> (bytes: Vec<u8>)
    ensures
        encodes(
            bytes@,
            m.version,
            m.kind,
            m.seq,
            m.service_path@,
            m.service_method@,
            m.payload@,
        ),
{
    let mut msg = Message::new();
    msg.set_version(m.version);
    msg.set_message_type(
        match m.kind {
            MessageKind::Request => MessageType::Request,
            MessageKind::Response => MessageType::Response,
        },
    );
    msg.set_seq(m.seq);
    msg.service_path = m.service_path;
    msg.service_method = m.service_method;
    msg.metadata.replace(m.metadata);
    msg.payload = m.payload;
    msg.encode()
}

/// What `rpcx_protocol` decodes a well-formed frame to: the sequence number,
/// the status, the server's error message and the payload, or `None` where it
/// reports an error.
pub uninterp spec fn decoded(frame: Seq<u8>) -> Option<InboundView>;

/// The message in a frame.
///
/// Calls `decode` of a fresh `rpcx_protocol::Message` on the bytes and reads
/// the result with `get_seq`, `get_message_status_type` and `get_error`.
/// Believed, not proved: on a well-formed frame the call returns, and what it
/// returns depends on the bytes alone. Where it returns a message, the
/// sequence number and the status are those of the header, the error message
/// is there only with an error status, and the payload is the last field of
/// the frame unless the frame is compressed. On input that is not well-formed
/// the decoder may panic, so no such input is admitted.
#[verifier::external_body]
fn decode_message(frame: &[u8]) -> (r: Result<Inbound, rpcx_protocol::Error>)
    requires
        well_formed(frame@),
    ensures
        match r {
            Ok(m) => decoded(frame@) == Some(m@) && reads(m@, frame@),
            Err(_) => decoded(frame@) is None,
        },
{
    let mut msg = Message::new();
    let mut reader: &[u8] = frame;
    msg.decode(&mut reader)?;
    let status = match msg.get_message_status_type() {
        Some(MessageStatusType::Error) => ReplyStatus::Error,
        Some(MessageStatusType::Normal) => ReplyStatus::Normal,
        None => ReplyStatus::Normal,
    };
    let error = msg.get_error();
    Ok(Inbound { seq: msg.get_seq(), status, error, payload: msg.payload })
}

/// The frame of a request: version 0, kind request, and the rest as given.
pub fn encode_request(
    seq: u64,
    service_path: String,
    service_method: String,
    metadata: HashMap<String, String>,
    payload: Vec<u8>,
) -> (frame: Vec<u8>)
    ensures
        encodes(
            frame@,
            PROTOCOL_VERSION,
            MessageKind::Request,
            seq,
            service_path@,
            service_method@,
            payload@,
        ),
{
    encode_message(
        Outgoing {
            version: PROTOCOL_VERSION,
            kind: MessageKind::Request,
            seq,
            service_path,
            service_method,
            metadata,
            payload,
        },
    )
}

/// What a buffer of received bytes yields: the message in the frame that it
/// starts with and the length of that frame, or why there is none. A frame
/// that is whole but that the decoder refuses is malformed.
pub open spec fn decode_spec(buf: Seq<u8>) -> Result<(InboundView, nat), DecodeError> {
    match check_spec(buf) {
        Ok(n) => match decoded(buf.subrange(0, n as int)) {
            Some(m) => Ok((m, n)),
            None => Err(DecodeError::Malformed),
        },
        Err(e) => Err(e),
    }
}

/// Decodes the frame that `buf` starts with. Returns the message and the
/// number of bytes that the frame takes, or `Incomplete` where more bytes are
/// needed, or `Malformed` where no frame can come of them. The message is a
/// reading of the frame.
pub fn decode(buf: &[u8]) -> (r: Result<(Inbound, usize), DecodeError>)
    ensures
        match r {
            Ok((m, n)) => decode_spec(buf@) == Ok::<(InboundView, nat), DecodeError>(
                (m@, n as nat),
            ) && n <= buf@.len() && reads(m@, buf@.subrange(0, n as int)),
            Err(e) => decode_spec(buf@) == Err::<(InboundView, nat), DecodeError>(e),
        },
{
    match check(buf) {
        Ok(n) => {
            proof {
                lemma_whole_frame_is_well_formed(buf@, n as nat);
            }
            match decode_message(slice_subrange(buf, 0, n)) {
                Ok(m) => Ok((m, n)),
                Err(_) => Err(DecodeError::Malformed),
            }
        },
        Err(e) => Err(e),
    }
}

/// What is encoded, the check accepts: the frame of a message, if its length
/// can be written in 32 bits, is a buffer that starts with a whole frame,
/// itself.
pub proof fn lemma_encoded_frame_is_whole(
    frame: Seq<u8>,
    version: u8,
    kind: MessageKind,
    seq: u64,
    service_path: Seq<char>,
    service_method: Seq<char>,
    payload: Seq<u8>,
)
    requires
        encodes(frame, version, kind, seq, service_path, service_method, payload),
        frame.len() - PREFIX_LEN <= u32::MAX,
    ensures
        check_spec(frame) == Ok::<nat, DecodeError>(frame.len()),
{
    lemma_well_formed_is_whole(frame);
}

/// What is encoded reads back as it was, as far as a message is read here:
/// every reading of the frame of a plain message has the sequence number and
/// the payload that were encoded, normal status and no error message.
pub proof fn lemma_encoded_frame_reads_back(
    frame: Seq<u8>,
    version: u8,
    kind: MessageKind,
    seq: u64,
    service_path: Seq<char>,
    service_method: Seq<char>,
    payload: Seq<u8>,
    m: InboundView,
)
    requires
        encodes(frame, version, kind, seq, service_path, service_method, payload),
        frame.len() - PREFIX_LEN <= u32::MAX,
        reads(m, frame),
    ensures
        m == (InboundView { seq, status: ReplyStatus::Normal, error: None, payload }),
{
    let flags = frame[2];
    assert(flags == 0x00 || flags == 0x80);
    assert((0x00u8 & 0x1C) >> 2 == 0 && 0x00u8 & 0x03 == 0) by (bit_vector);
    assert((0x80u8 & 0x1C) >> 2 == 0 && 0x80u8 & 0x03 == 0) by (bit_vector);
}

} // verus!
