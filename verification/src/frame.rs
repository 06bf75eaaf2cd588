//! The layout of a frame on the wire, as far as it can be told without
//! decoding: where each field lies and whether the whole is sound.
//!
//! A frame is a header of 12 bytes, the length of the rest as a big-endian
//! 32-bit number, and the rest: the service path, the service method, the
//! metadata and the payload, each behind its own length. The metadata is a
//! run of keys and values, each behind its length again.

use crate::codec::is_utf8;
use crate::error::DecodeError;
use vstd::prelude::*;
use vstd::slice::slice_subrange;
use vstd::utf8::valid_utf8;

verus! {

/// The first byte of every frame.
pub const MAGIC_NUMBER: u8 = 0x08;

/// The length of the header.
pub const HEADER_LEN: usize = 12;

/// The length of the header and the length field that follows it.
pub const PREFIX_LEN: usize = 16;

/// The big-endian number in the four bytes of `b` from `at` on.
pub open spec fn be_u32(b: Seq<u8>, at: int) -> nat {
    (b[at] as nat) * 0x100_0000 + (b[at + 1] as nat) * 0x1_0000 + (b[at + 2] as nat) * 0x100
        + (b[at + 3] as nat)
}

/// Whether a field, a length and that many bytes, starts at `at` and ends
/// within `b`.
pub open spec fn field_fits(b: Seq<u8>, at: int) -> bool {
    0 <= at && at + 4 <= b.len() && at + 4 + be_u32(b, at) <= b.len()
}

/// Where the field that starts at `at` ends.
pub open spec fn field_end(b: Seq<u8>, at: int) -> int {
    at + 4 + be_u32(b, at)
}

/// The content of the field that starts at `at`.
pub open spec fn field_bytes(b: Seq<u8>, at: int) -> Seq<u8> {
    b.subrange(at + 4, field_end(b, at))
}

/// Whether a field starts at `at` whose content is text.
pub open spec fn text_fits(b: Seq<u8>, at: int) -> bool {
    field_fits(b, at) && valid_utf8(field_bytes(b, at))
}

/// Whether `meta` from `at` on is a run of keys and values, each a text
/// field. The last key may stand without a value.
pub open spec fn entries_fit(meta: Seq<u8>, at: int) -> bool
    decreases meta.len() - at,
{
    if at < 0 {
        false
    } else if at >= meta.len() {
        true
    } else if !text_fits(meta, at) {
        false
    } else if field_end(meta, at) >= meta.len() {
        true
    } else {
        text_fits(meta, field_end(meta, at)) && entries_fit(
            meta,
            field_end(meta, field_end(meta, at)),
        )
    }
}

/// Where the service method starts in the part behind the length field.
pub open spec fn method_at(body: Seq<u8>) -> int {
    field_end(body, 0)
}

/// Where the metadata starts in the part behind the length field.
pub open spec fn metadata_at(body: Seq<u8>) -> int {
    field_end(body, method_at(body))
}

/// Where the payload starts in the part behind the length field.
pub open spec fn payload_at(body: Seq<u8>) -> int {
    field_end(body, metadata_at(body))
}

/// Whether `body` is the four fields of a frame and nothing else.
pub open spec fn body_fits(body: Seq<u8>) -> bool {
    &&& text_fits(body, 0)
    &&& text_fits(body, method_at(body))
    &&& field_fits(body, metadata_at(body))
    &&& entries_fit(field_bytes(body, metadata_at(body)), 0)
    &&& field_fits(body, payload_at(body))
    &&& field_end(body, payload_at(body)) == body.len()
}

/// The part of a frame behind the length field.
pub open spec fn body_of(frame: Seq<u8>) -> Seq<u8> {
    frame.subrange(PREFIX_LEN as int, frame.len() as int)
}

/// The service path of a well-formed frame, as bytes.
pub open spec fn path_bytes(frame: Seq<u8>) -> Seq<u8> {
    field_bytes(body_of(frame), 0)
}

/// The service method of a well-formed frame, as bytes.
pub open spec fn method_bytes(frame: Seq<u8>) -> Seq<u8> {
    field_bytes(body_of(frame), method_at(body_of(frame)))
}

/// The payload of a well-formed frame, as it stands in the frame.
pub open spec fn payload_bytes(frame: Seq<u8>) -> Seq<u8> {
    field_bytes(body_of(frame), payload_at(body_of(frame)))
}

/// Whether the flag byte of a header says that the payload is compressed.
pub open spec fn is_compressed(flags: u8) -> bool {
    (flags & 0x1C) >> 2 != 0
}

/// Whether the flag byte of a header reports an error.
pub open spec fn reports_error(flags: u8) -> bool {
    flags & 0x03 == 1
}

/// Whether the flag byte of a header names a known compression and a known
/// status.
pub open spec fn flags_fit(flags: u8) -> bool {
    (flags & 0x1C) >> 2 <= 1 && flags & 0x03 <= 1
}

/// Whether `frame` is one whole frame that a decoder can take apart.
pub open spec fn well_formed(frame: Seq<u8>) -> bool {
    &&& frame.len() >= PREFIX_LEN
    &&& frame[0] == MAGIC_NUMBER
    &&& flags_fit(frame[2])
    &&& frame.len() == PREFIX_LEN + be_u32(frame, HEADER_LEN as int)
    &&& body_fits(body_of(frame))
}

/// What a buffer of received bytes starts with: a whole frame of the length
/// given, the beginning of one, or something that is no frame.
pub open spec fn check_spec(buf: Seq<u8>) -> Result<nat, DecodeError> {
    if buf.len() >= 1 && buf[0] != MAGIC_NUMBER {
        Err(DecodeError::Malformed)
    } else if buf.len() >= 3 && !flags_fit(buf[2]) {
        Err(DecodeError::Malformed)
    } else if buf.len() < PREFIX_LEN {
        Err(DecodeError::Incomplete)
    } else if buf.len() < PREFIX_LEN + be_u32(buf, HEADER_LEN as int) {
        Err(DecodeError::Incomplete)
    } else if body_fits(
        buf.subrange(PREFIX_LEN as int, PREFIX_LEN + be_u32(buf, HEADER_LEN as int)),
    ) {
        Ok((PREFIX_LEN + be_u32(buf, HEADER_LEN as int)) as nat)
    } else {
        Err(DecodeError::Malformed)
    }
}

fn read_u32(b: &[u8], at: usize) -> (v: u32)
    requires
        at + 4 <= b@.len(),
    ensures
        v == be_u32(b@, at as int),
{
    let b0: u32 = b[at] as u32;
    let b1: u32 = b[at + 1] as u32;
    let b2: u32 = b[at + 2] as u32;
    let b3: u32 = b[at + 3] as u32;
    b0 * 0x100_0000 + b1 * 0x1_0000 + b2 * 0x100 + b3
}

fn scan_field(b: &[u8], at: usize) -> (r: Option<usize>)
    requires
        at <= b@.len(),
    ensures
        match r {
            Some(end) => field_fits(b@, at as int) && end == field_end(b@, at as int),
            None => !field_fits(b@, at as int),
        },
{
    let left: usize = b.len() - at;
    if left < 4 {
        return None;
    }
    let n: u32 = read_u32(b, at);
    if n as u64 > (left - 4) as u64 {
        None
    } else {
        Some(at + 4 + n as usize)
    }
}

fn scan_text(b: &[u8], at: usize) -> (r: Option<usize>)
    requires
        at <= b@.len(),
    ensures
        match r {
            Some(end) => text_fits(b@, at as int) && end == field_end(b@, at as int),
            None => !text_fits(b@, at as int),
        },
{
    match scan_field(b, at) {
        Some(end) => {
            if is_utf8(slice_subrange(b, at + 4, end)) {
                Some(end)
            } else {
                None
            }
        },
        None => None,
    }
}

fn scan_entries(meta: &[u8]) -> (ok: bool)
    ensures
        ok == entries_fit(meta@, 0),
{
    let mut at: usize = 0;
    while at < meta.len()
        invariant
            at <= meta@.len(),
            entries_fit(meta@, 0) == entries_fit(meta@, at as int),
        decreases meta@.len() - at,
    {
        let value_at: usize = match scan_text(meta, at) {
            Some(end) => end,
            None => {
                return false;
            },
        };
        if value_at >= meta.len() {
            return true;
        }
        at =
        match scan_text(meta, value_at) {
            Some(end) => end,
            None => {
                return false;
            },
        };
    }
    true
}

fn scan_body(body: &[u8]) -> (ok: bool)
    ensures
        ok == body_fits(body@),
{
    let method: usize = match scan_text(body, 0) {
        Some(end) => end,
        None => {
            return false;
        },
    };
    let metadata: usize = match scan_text(body, method) {
        Some(end) => end,
        None => {
            return false;
        },
    };
    let payload: usize = match scan_field(body, metadata) {
        Some(end) => end,
        None => {
            return false;
        },
    };
    if !scan_entries(slice_subrange(body, metadata + 4, payload)) {
        return false;
    }
    match scan_field(body, payload) {
        Some(end) => end == body.len(),
        None => false,
    }
}

/// Tells what `buf` starts with. `Ok(n)`: its first `n` bytes are one
/// well-formed frame. `Incomplete`: there may be one once more bytes have
/// arrived. `Malformed`: there is none, whatever follows.
pub fn check(buf: &[u8]) -> (r: Result<usize, DecodeError>)
    ensures
        match r {
            Ok(n) => check_spec(buf@) == Ok::<nat, DecodeError>(n as nat),
            Err(e) => check_spec(buf@) == Err::<nat, DecodeError>(e),
        },
{
    if buf.len() >= 1 && buf[0] != MAGIC_NUMBER {
        return Err(DecodeError::Malformed);
    }
    if buf.len() >= 3 && !((buf[2] & 0x1C) >> 2 <= 1 && buf[2] & 0x03 <= 1) {
        return Err(DecodeError::Malformed);
    }
    if buf.len() < PREFIX_LEN {
        return Err(DecodeError::Incomplete);
    }
    let n: u32 = read_u32(buf, HEADER_LEN);
    if n as u64 > (buf.len() - PREFIX_LEN) as u64 {
        return Err(DecodeError::Incomplete);
    }
    let end: usize = PREFIX_LEN + n as usize;
    if scan_body(slice_subrange(buf, PREFIX_LEN, end)) {
        Ok(end)
    } else {
        Err(DecodeError::Malformed)
    }
}

/// A buffer that starts with a whole frame of `n` bytes starts with a
/// well-formed frame: its first `n` bytes.
pub proof fn lemma_whole_frame_is_well_formed(buf: Seq<u8>, n: nat)
    requires
        check_spec(buf) == Ok::<nat, DecodeError>(n),
    ensures
        PREFIX_LEN <= n <= buf.len(),
        well_formed(buf.subrange(0, n as int)),
{
    let frame = buf.subrange(0, n as int);
    assert(be_u32(frame, HEADER_LEN as int) == be_u32(buf, HEADER_LEN as int));
    assert(frame.subrange(PREFIX_LEN as int, frame.len() as int) =~= buf.subrange(
        PREFIX_LEN as int,
        n as int,
    ));
}

/// A well-formed frame is a buffer that starts with a whole frame: itself.
pub proof fn lemma_well_formed_is_whole(frame: Seq<u8>)
    requires
        well_formed(frame),
    ensures
        check_spec(frame) == Ok::<nat, DecodeError>(frame.len()),
{
}

/// More bytes change no verdict but `Incomplete`: a buffer that starts with a
/// whole frame, or with what is no frame, still does so when more bytes have
/// arrived.
pub proof fn lemma_verdict_is_final(buf: Seq<u8>, more: Seq<u8>)
    requires
        check_spec(buf) != Err::<nat, DecodeError>(DecodeError::Incomplete),
    ensures
        check_spec(buf + more) == check_spec(buf),
{
    let all = buf + more;
    if buf.len() >= 1 {
        assert(all[0] == buf[0]);
    }
    if buf.len() >= 3 {
        assert(all[2] == buf[2]);
    }
    if buf.len() >= PREFIX_LEN {
        assert(be_u32(all, HEADER_LEN as int) == be_u32(buf, HEADER_LEN as int));
        let end = PREFIX_LEN + be_u32(buf, HEADER_LEN as int);
        if buf.len() >= end {
            assert(all.subrange(PREFIX_LEN as int, end) =~= buf.subrange(PREFIX_LEN as int, end));
        }
    }
}

} // verus!
