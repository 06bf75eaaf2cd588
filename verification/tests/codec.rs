use rpcx_client::codec::{decode, encode_request, MessageKind, PROTOCOL_VERSION};
use rpcx_client::error::DecodeError;
use rpcx_client::frame::check;
use rpcx_client::message::{Inbound, ReplyStatus};
use rpcx_protocol::message::{
    CompressType, Message, MessageStatusType, MessageType, RpcxMessage, SERVICE_ERROR,
};
use std::collections::HashMap;

fn response(seq: u64, payload: &[u8]) -> Message {
    let mut msg = Message::new();
    msg.set_message_type(MessageType::Response);
    msg.set_seq(seq);
    msg.service_path = String::from("Arith");
    msg.service_method = String::from("Mul");
    msg.payload = payload.to_vec();
    msg
}

fn metadata(pairs: &[(&str, &str)]) -> HashMap<String, String> {
    let mut m = HashMap::new();
    for (k, v) in pairs {
        m.insert(String::from(*k), String::from(*v));
    }
    m
}

#[test]
fn protocol_constants() {
    assert_eq!(PROTOCOL_VERSION, 0);
    assert_ne!(MessageKind::Request, MessageKind::Response);
}

#[test]
fn a_request_without_metadata_has_these_bytes() {
    let frame = encode_request(
        1,
        String::from("Arith"),
        String::from("Mul"),
        HashMap::new(),
        vec![130, 161, 65, 10, 161, 66, 20],
    );
    let expected: Vec<u8> = vec![
        8, 0, 0, 0, 0, 0, 0, 0, 0, 0, 0, 1, 0, 0, 0, 31, 0, 0, 0, 5, 65, 114, 105, 116, 104, 0, 0,
        0, 3, 77, 117, 108, 0, 0, 0, 0, 0, 0, 0, 7, 130, 161, 65, 10, 161, 66, 20,
    ];
    assert_eq!(frame, expected);
}

#[test]
fn the_header_carries_the_sequence_number_big_endian() {
    let seq: u64 = 0x0102_0304_0506_0708;
    let frame = encode_request(seq, String::new(), String::new(), HashMap::new(), Vec::new());
    assert_eq!(&frame[..12], &[8, 0, 0, 0, 1, 2, 3, 4, 5, 6, 7, 8]);
    assert_eq!(frame.len(), 32);
    let frame =
        encode_request(u64::MAX, String::new(), String::new(), HashMap::new(), Vec::new());
    assert_eq!(&frame[..12], &[8, 0, 0, 0, 255, 255, 255, 255, 255, 255, 255, 255]);
}

#[test]
fn one_metadata_entry_is_encoded_behind_the_method() {
    let frame = encode_request(
        2,
        String::from("S"),
        String::from("M"),
        metadata(&[("k", "vv")]),
        vec![9],
    );
    let expected: Vec<u8> = vec![
        8, 0, 0, 0, 0, 0, 0, 0, 0, 0, 0, 2, 0, 0, 0, 30, 0, 0, 0, 1, b'S', 0, 0, 0, 1, b'M', 0, 0,
        0, 11, 0, 0, 0, 1, b'k', 0, 0, 0, 2, b'v', b'v', 0, 0, 0, 1, 9,
    ];
    assert_eq!(frame, expected);
}

#[test]
fn decode_reads_sequence_number_status_and_payload() {
    let frame = response(1234567890, &[0xcc, 0xc8]).encode();
    let (message, consumed) = decode(&frame).unwrap();
    assert_eq!(consumed, frame.len());
    assert_eq!(
        message,
        Inbound {
            seq: 1234567890,
            status: ReplyStatus::Normal,
            error: None,
            payload: vec![0xcc, 0xc8],
        }
    );
}

#[test]
fn decode_takes_only_the_first_frame() {
    let first = response(1, &[1]).encode();
    let second = response(2, &[2, 2]).encode();
    let mut buf = first.clone();
    buf.extend_from_slice(&second);
    let (message, consumed) = decode(&buf).unwrap();
    assert_eq!(message.seq, 1);
    assert_eq!(message.payload, vec![1]);
    assert_eq!(consumed, first.len());
    let (message, consumed) = decode(&buf[consumed..]).unwrap();
    assert_eq!(message.seq, 2);
    assert_eq!(message.payload, vec![2, 2]);
    assert_eq!(consumed, second.len());
}

#[test]
fn decode_reports_the_servers_error_message() {
    let mut msg = response(5, &[]);
    msg.set_message_status_type(MessageStatusType::Error);
    msg.metadata.borrow_mut().insert(String::from(SERVICE_ERROR), String::from("division by zero"));
    let (message, _) = decode(&msg.encode()).unwrap();
    assert_eq!(message.seq, 5);
    assert_eq!(message.status, ReplyStatus::Error);
    assert_eq!(message.error, Some(String::from("division by zero")));
}

#[test]
fn an_error_status_without_a_message_has_none() {
    let mut msg = response(5, &[1]);
    msg.set_message_status_type(MessageStatusType::Error);
    let (message, _) = decode(&msg.encode()).unwrap();
    assert_eq!(message.status, ReplyStatus::Error);
    assert_eq!(message.error, None);
}

#[test]
fn a_normal_status_hides_an_error_entry() {
    let mut msg = response(5, &[1]);
    msg.metadata.borrow_mut().insert(String::from(SERVICE_ERROR), String::from("stale"));
    let (message, _) = decode(&msg.encode()).unwrap();
    assert_eq!(message.status, ReplyStatus::Normal);
    assert_eq!(message.error, None);
}

#[test]
fn a_compressed_payload_is_unpacked() {
    let payload: Vec<u8> = (0..200u32).map(|i| (i % 7) as u8).collect();
    let mut msg = response(9, &payload);
    msg.set_compress_type(CompressType::Gzip);
    let frame = msg.encode();
    assert_eq!(check(&frame), Ok(frame.len()));
    let (message, consumed) = decode(&frame).unwrap();
    assert_eq!(consumed, frame.len());
    assert_eq!(message.seq, 9);
    assert_eq!(message.payload, payload);
}

#[test]
fn a_frame_that_the_decoder_refuses_is_malformed() {
    // Well-formed in layout, marked as compressed, but the payload is no gzip.
    let mut frame = response(3, &[1, 2, 3, 4]).encode();
    frame[2] |= 0b0000_0100;
    assert_eq!(check(&frame), Ok(frame.len()));
    assert_eq!(decode(&frame), Err(DecodeError::Malformed));
}

#[test]
fn decode_passes_on_the_verdict_of_the_check() {
    let frame = response(1, &[1, 2, 3]).encode();
    assert_eq!(decode(&[]), Err(DecodeError::Incomplete));
    assert_eq!(decode(&frame[..frame.len() - 1]), Err(DecodeError::Incomplete));
    assert_eq!(decode(&[0]), Err(DecodeError::Malformed));
    let mut bad = frame.clone();
    let at = bad.len() - 4;
    bad[at] = 0xff;
    assert_eq!(decode(&bad), Err(DecodeError::Malformed));
}

#[test]
fn what_is_encoded_decodes_to_the_same_message() {
    let long_path: String = "p".repeat(300);
    let cases: Vec<(u64, String, String, Vec<(&str, &str)>, Vec<u8>)> = vec![
        (1, String::new(), String::new(), vec![], vec![]),
        (2, String::from("Arith"), String::from("Mul"), vec![], vec![130, 161, 65, 10]),
        (3, String::from("a"), String::from("b"), vec![("k", "v")], vec![]),
        (
            4,
            long_path.clone(),
            String::from("Müller"),
            vec![("one", "1"), ("two", ""), ("three", "drei"), ("", "empty key")],
            vec![0; 1000],
        ),
        (u64::MAX, String::from("x"), long_path.clone(), vec![("k", "v"), ("q", "w")], vec![255]),
    ];
    for (seq, path, method, pairs, payload) in cases {
        let frame = encode_request(
            seq,
            path.clone(),
            method.clone(),
            metadata(&pairs),
            payload.clone(),
        );
        assert_eq!(check(&frame), Ok(frame.len()));

        let (message, consumed) = decode(&frame).unwrap();
        assert_eq!(consumed, frame.len());
        assert_eq!(
            message,
            Inbound { seq, status: ReplyStatus::Normal, error: None, payload: payload.clone() }
        );

        let mut back = Message::new();
        let mut reader: &[u8] = &frame;
        back.decode(&mut reader).unwrap();
        assert_eq!(back.get_version(), 0);
        assert_eq!(back.get_message_type(), Some(MessageType::Request));
        assert_eq!(back.get_seq(), seq);
        assert_eq!(back.service_path, path);
        assert_eq!(back.service_method, method);
        assert_eq!(*back.metadata.borrow(), metadata(&pairs));
        assert_eq!(back.payload, payload);
    }
}
