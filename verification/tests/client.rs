use rpcx_client::client::{into_result, Client, ReadStep};
use rpcx_client::connection::ConnState;
use rpcx_client::error::{CallError, ConnectError, DecodeError};
use rpcx_client::message::{Failure, Inbound, OutboundFrame, Outcome, ReplyStatus};
use rpcx_client::pending::Resolution;
use rpcx_protocol::message::{
    Message, MessageStatusType, MessageType, RpcxMessage, SERVICE_ERROR,
};
use std::collections::HashMap;

fn open_client() -> Client<u32> {
    let mut c: Client<u32> = Client::new("127.0.0.1:8972");
    assert_eq!(c.start(), Ok(()));
    assert_eq!(c.established(true), Ok(()));
    c
}

fn send(c: &mut Client<u32>, method: &str, args: &[u8], slot: u32) -> Result<u64, CallError> {
    c.async_send(
        String::from("Arith"),
        String::from(method),
        HashMap::new(),
        args.to_vec(),
        slot,
    )
}

fn response_frame(seq: u64, payload: &[u8]) -> Vec<u8> {
    let mut msg = Message::new();
    msg.set_message_type(MessageType::Response);
    msg.set_seq(seq);
    msg.service_path = String::from("Arith");
    msg.service_method = String::from("Mul");
    msg.payload = payload.to_vec();
    msg.encode()
}

fn reply(seq: u64, payload: &[u8]) -> Inbound {
    Inbound { seq, status: ReplyStatus::Normal, error: None, payload: payload.to_vec() }
}

fn delivered(step: ReadStep<u32>) -> (usize, u64, u32, Outcome) {
    match step {
        ReadStep::Frame { consumed, resolution: Resolution::Delivered(d) } => {
            (consumed, d.seq, d.slot, d.outcome)
        }
        other => panic!("expected a delivery, got {:?}", other),
    }
}

#[test]
fn a_new_client_is_closed_and_empty() {
    let mut c: Client<u32> = Client::new("127.0.0.1:8972");
    assert_eq!(c.addr(), "127.0.0.1:8972");
    assert_eq!(c.state(), ConnState::Closed);
    assert_eq!(c.pending_len(), 0);
    assert_eq!(c.last_issued(), 0);
    assert_eq!(c.next_outbound(), None);
}

#[test]
fn start_then_established_opens_the_connection() {
    let mut c: Client<u32> = Client::new("localhost:1");
    assert_eq!(c.start(), Ok(()));
    assert_eq!(c.state(), ConnState::Connecting);
    assert_eq!(c.established(true), Ok(()));
    assert_eq!(c.state(), ConnState::Open);
}

#[test]
fn a_failed_attempt_closes_the_client_again() {
    let mut c: Client<u32> = Client::new("localhost:1");
    assert_eq!(c.start(), Ok(()));
    assert_eq!(c.established(false), Err(ConnectError::Unreachable));
    assert_eq!(c.state(), ConnState::Closed);
    assert_eq!(send(&mut c, "Mul", &[], 1), Err(CallError::NotConnected));
    // the application may try again
    assert_eq!(c.start(), Ok(()));
    assert_eq!(c.established(true), Ok(()));
    assert_eq!(c.state(), ConnState::Open);
}

#[test]
fn start_is_refused_unless_closed() {
    let mut c: Client<u32> = Client::new("localhost:1");
    c.start().unwrap();
    assert_eq!(c.start(), Err(ConnectError::Busy));
    assert_eq!(c.state(), ConnState::Connecting);
    c.established(true).unwrap();
    assert_eq!(c.start(), Err(ConnectError::Busy));
    assert_eq!(c.state(), ConnState::Open);
    assert!(c.begin_teardown());
    assert_eq!(c.start(), Err(ConnectError::Busy));
    assert_eq!(c.state(), ConnState::Closing);
}

#[test]
fn established_is_refused_unless_connecting() {
    let mut c: Client<u32> = Client::new("localhost:1");
    assert_eq!(c.established(true), Err(ConnectError::Busy));
    assert_eq!(c.established(false), Err(ConnectError::Busy));
    assert_eq!(c.state(), ConnState::Closed);
    let mut c = open_client();
    assert_eq!(c.established(false), Err(ConnectError::Busy));
    assert_eq!(c.state(), ConnState::Open);
}

#[test]
fn calls_are_refused_unless_open() {
    let mut c: Client<u32> = Client::new("localhost:1");
    assert_eq!(send(&mut c, "Mul", &[], 1), Err(CallError::NotConnected));
    assert_eq!(c.register_call(1), Err(CallError::NotConnected));
    c.start().unwrap();
    assert_eq!(send(&mut c, "Mul", &[], 1), Err(CallError::NotConnected));
    assert_eq!(c.pending_len(), 0);
    assert_eq!(c.last_issued(), 0);
    assert_eq!(c.next_outbound(), None);
}

#[test]
fn arith_mul_returns_200_and_leaves_the_table_empty() {
    let mut c = open_client();
    let args: Vec<u8> = vec![130, 161, 65, 10, 161, 66, 20];
    assert_eq!(send(&mut c, "Mul", &args, 77), Ok(1));
    assert_eq!(c.pending_len(), 1);

    let frame = c.next_outbound().unwrap();
    assert_eq!(frame.seq, 1);
    let expected: Vec<u8> = vec![
        8, 0, 0, 0, 0, 0, 0, 0, 0, 0, 0, 1, 0, 0, 0, 31, 0, 0, 0, 5, 65, 114, 105, 116, 104, 0, 0,
        0, 3, 77, 117, 108, 0, 0, 0, 0, 0, 0, 0, 7, 130, 161, 65, 10, 161, 66, 20,
    ];
    assert_eq!(frame.data, expected);
    assert_eq!(c.next_outbound(), None);

    // the server answers with 200
    let answer = response_frame(1, &[0xcc, 200]);
    let (consumed, seq, slot, outcome) = delivered(c.on_bytes(&answer));
    assert_eq!(consumed, answer.len());
    assert_eq!(seq, 1);
    assert_eq!(slot, 77);
    let payload = into_result(outcome).unwrap();
    assert_eq!(payload, vec![0xcc, 200]);
    assert_eq!(payload[1] as u32, 10 * 20);
    assert_eq!(c.pending_len(), 0);
    assert_eq!(c.state(), ConnState::Open);
}

#[test]
fn sequence_numbers_count_up_from_one() {
    let mut c = open_client();
    for n in 1..=20u64 {
        assert_eq!(send(&mut c, "Mul", &[], n as u32), Ok(n));
        assert_eq!(c.last_issued(), n);
    }
    assert_eq!(c.pending_len(), 20);
}

#[test]
fn frames_leave_in_the_order_of_the_calls() {
    let mut c = open_client();
    send(&mut c, "Add", &[1], 1).unwrap();
    send(&mut c, "Mul", &[2], 2).unwrap();
    send(&mut c, "Div", &[3], 3).unwrap();
    let seqs: Vec<u64> = vec![
        c.next_outbound().unwrap().seq,
        c.next_outbound().unwrap().seq,
        c.next_outbound().unwrap().seq,
    ];
    assert_eq!(seqs, vec![1, 2, 3]);
    assert_eq!(c.next_outbound(), None);
    // the calls are still pending: only replies resolve them
    assert_eq!(c.pending_len(), 3);
}

#[test]
fn each_caller_gets_its_own_reply_whatever_the_order() {
    let orders: Vec<Vec<u64>> =
        vec![vec![1, 2, 3, 4], vec![4, 3, 2, 1], vec![2, 4, 1, 3], vec![3, 1, 4, 2]];
    for order in orders {
        let mut c = open_client();
        for n in 1..=4u64 {
            assert_eq!(send(&mut c, "Mul", &[n as u8], 100 + n as u32), Ok(n));
        }
        let mut left = 4;
        for seq in order {
            let answer = response_frame(seq, &[seq as u8, 0xaa]);
            let (_, got_seq, slot, outcome) = delivered(c.on_bytes(&answer));
            assert_eq!(got_seq, seq);
            assert_eq!(slot, 100 + seq as u32);
            assert_eq!(into_result(outcome), Ok(vec![seq as u8, 0xaa]));
            left -= 1;
            assert_eq!(c.pending_len(), left);
        }
    }
}

#[test]
fn a_reply_for_a_call_never_issued_is_dropped() {
    let mut c = open_client();
    send(&mut c, "Mul", &[], 1).unwrap();
    send(&mut c, "Mul", &[], 2).unwrap();
    for stray in [0u64, 3, 99, u64::MAX] {
        let answer = response_frame(stray, &[1]);
        match c.on_bytes(&answer) {
            ReadStep::Frame { consumed, resolution: Resolution::Unmatched(m) } => {
                assert_eq!(consumed, answer.len());
                assert_eq!(m, reply(stray, &[1]));
            }
            other => panic!("expected an unmatched message, got {:?}", other),
        }
        assert_eq!(c.pending_len(), 2);
        assert_eq!(c.state(), ConnState::Open);
    }
    // the pending calls are answered as if nothing had happened
    let (_, seq, slot, _) = delivered(c.on_bytes(&response_frame(2, &[])));
    assert_eq!((seq, slot), (2, 2));
    let (_, seq, slot, _) = delivered(c.on_bytes(&response_frame(1, &[])));
    assert_eq!((seq, slot), (1, 1));
    assert_eq!(c.pending_len(), 0);
}

#[test]
fn a_second_reply_for_the_same_call_is_dropped() {
    let mut c = open_client();
    send(&mut c, "Mul", &[], 5).unwrap();
    assert!(matches!(c.on_message(reply(1, &[1])), Resolution::Delivered(_)));
    assert!(matches!(c.on_message(reply(1, &[1])), Resolution::Unmatched(_)));
    assert_eq!(c.pending_len(), 0);
}

#[test]
fn an_incomplete_frame_changes_nothing() {
    let mut c = open_client();
    send(&mut c, "Mul", &[], 1).unwrap();
    let answer = response_frame(1, &[1, 2, 3]);
    for n in 0..answer.len() {
        assert!(matches!(c.on_bytes(&answer[..n]), ReadStep::Wait));
        assert_eq!(c.pending_len(), 1);
        assert_eq!(c.state(), ConnState::Open);
    }
    let (consumed, seq, _, _) = delivered(c.on_bytes(&answer));
    assert_eq!((consumed, seq), (answer.len(), 1));
}

#[test]
fn two_frames_in_one_buffer_are_taken_one_by_one() {
    let mut c = open_client();
    send(&mut c, "Mul", &[], 10).unwrap();
    send(&mut c, "Mul", &[], 20).unwrap();
    let mut buf = response_frame(2, &[2]);
    buf.extend_from_slice(&response_frame(1, &[1]));
    let (consumed, seq, slot, _) = delivered(c.on_bytes(&buf));
    assert_eq!((seq, slot), (2, 20));
    let (rest, seq, slot, _) = delivered(c.on_bytes(&buf[consumed..]));
    assert_eq!((seq, slot), (1, 10));
    assert_eq!(consumed + rest, buf.len());
}

#[test]
fn end_of_stream_releases_both_pending_calls() {
    let mut c = open_client();
    assert_eq!(send(&mut c, "Mul", &[1], 11), Ok(1));
    assert_eq!(send(&mut c, "Add", &[2], 22), Ok(2));

    // the reader sees a read of zero bytes
    assert!(c.begin_teardown());
    assert_eq!(c.state(), ConnState::Closing);
    assert_eq!(send(&mut c, "Mul", &[], 33), Err(CallError::NotConnected));
    // what was not yet written is forgotten
    assert_eq!(c.next_outbound(), None);

    let released = c.finish_teardown();
    assert_eq!(c.state(), ConnState::Closed);
    assert_eq!(released.len(), 2);
    assert_eq!((released[0].seq, released[0].slot), (1, 11));
    assert_eq!((released[1].seq, released[1].slot), (2, 22));
    for d in released {
        assert_eq!(d.outcome, Outcome::Failed(Failure::ConnectionClosed));
        assert_eq!(into_result(d.outcome), Err(CallError::ConnectionClosed));
    }
    assert_eq!(c.pending_len(), 0);
    assert_eq!(send(&mut c, "Mul", &[], 33), Err(CallError::NotConnected));
}

#[test]
fn a_malformed_frame_tears_the_connection_down() {
    let mut c = open_client();
    send(&mut c, "Mul", &[1], 11).unwrap();
    send(&mut c, "Add", &[2], 22).unwrap();

    let mut bad = response_frame(1, &[1]);
    bad[0] = 0x09;
    match c.on_bytes(&bad) {
        ReadStep::Broken { began } => assert!(began),
        other => panic!("expected the stream to be broken, got {:?}", other),
    }
    assert_eq!(c.state(), ConnState::Closing);
    assert_eq!(c.pending_len(), 2);

    let released = c.finish_teardown();
    let who: Vec<(u64, u32)> = released.iter().map(|d| (d.seq, d.slot)).collect();
    assert_eq!(who, vec![(1, 11), (2, 22)]);
    for d in released {
        assert_eq!(into_result(d.outcome), Err(CallError::ConnectionClosed));
    }
    assert_eq!(c.state(), ConnState::Closed);
    assert_eq!(send(&mut c, "Mul", &[], 33), Err(CallError::NotConnected));
}

#[test]
fn a_frame_that_the_decoder_refuses_tears_the_connection_down() {
    let mut c = open_client();
    send(&mut c, "Mul", &[1], 11).unwrap();
    let mut bad = response_frame(1, &[1, 2, 3, 4]);
    bad[2] |= 0b0000_0100;
    assert!(matches!(c.on_bytes(&bad), ReadStep::Broken { began: true }));
    assert_eq!(c.state(), ConnState::Closing);
}

#[test]
fn teardown_happens_once() {
    let mut c = open_client();
    send(&mut c, "Mul", &[], 1).unwrap();
    assert!(c.begin_teardown());
    assert!(!c.begin_teardown());
    assert_eq!(c.finish_teardown().len(), 1);
    assert_eq!(c.finish_teardown().len(), 0);
    assert!(!c.begin_teardown());
    assert_eq!(c.state(), ConnState::Closed);
    // a malformed frame on a closed client begins nothing
    assert!(matches!(c.on_bytes(&[0]), ReadStep::Broken { began: false }));
    assert_eq!(c.state(), ConnState::Closed);
}

#[test]
fn teardown_is_refused_before_the_connection_is_open() {
    let mut c: Client<u32> = Client::new("localhost:1");
    assert!(!c.begin_teardown());
    assert_eq!(c.finish_teardown().len(), 0);
    c.start().unwrap();
    assert!(!c.begin_teardown());
    assert_eq!(c.finish_teardown().len(), 0);
    assert_eq!(c.state(), ConnState::Connecting);
}

#[test]
fn finish_without_begin_releases_nothing() {
    let mut c = open_client();
    send(&mut c, "Mul", &[], 1).unwrap();
    assert_eq!(c.finish_teardown().len(), 0);
    assert_eq!(c.state(), ConnState::Open);
    assert_eq!(c.pending_len(), 1);
}

#[test]
fn a_reply_that_arrives_while_closing_is_still_delivered() {
    let mut c = open_client();
    send(&mut c, "Mul", &[], 1).unwrap();
    send(&mut c, "Mul", &[], 2).unwrap();
    assert!(c.begin_teardown());
    let (_, seq, slot, outcome) = delivered(c.on_bytes(&response_frame(2, &[7])));
    assert_eq!((seq, slot), (2, 2));
    assert_eq!(into_result(outcome), Ok(vec![7]));
    let released = c.finish_teardown();
    assert_eq!(released.len(), 1);
    assert_eq!(released[0].seq, 1);
}

#[test]
fn a_new_connection_starts_a_new_run_of_numbers() {
    let mut c = open_client();
    assert_eq!(send(&mut c, "Mul", &[], 1), Ok(1));
    assert_eq!(send(&mut c, "Mul", &[], 2), Ok(2));
    assert!(c.begin_teardown());
    assert_eq!(c.finish_teardown().len(), 2);
    assert_eq!(c.last_issued(), 2);
    assert_eq!(c.start(), Ok(()));
    assert_eq!(c.last_issued(), 0);
    assert_eq!(c.established(true), Ok(()));
    assert_eq!(send(&mut c, "Mul", &[], 3), Ok(1));
    assert_eq!(c.pending_len(), 1);
}

#[test]
fn a_server_error_becomes_a_call_error() {
    let mut c = open_client();
    send(&mut c, "Div", &[], 1).unwrap();
    let mut msg = Message::new();
    msg.set_message_type(MessageType::Response);
    msg.set_message_status_type(MessageStatusType::Error);
    msg.set_seq(1);
    msg.metadata.borrow_mut().insert(String::from(SERVICE_ERROR), String::from("divide by zero"));
    let (_, _, _, outcome) = delivered(c.on_bytes(&msg.encode()));
    assert_eq!(into_result(outcome), Err(CallError::Server(String::from("divide by zero"))));
    assert_eq!(c.pending_len(), 0);
    assert_eq!(c.state(), ConnState::Open);
}

#[test]
fn into_result_covers_every_outcome() {
    assert_eq!(into_result(Outcome::Reply(reply(1, &[1, 2]))), Ok(vec![1, 2]));
    assert_eq!(into_result(Outcome::Reply(reply(1, &[]))), Ok(vec![]));
    let failed = Inbound {
        seq: 1,
        status: ReplyStatus::Error,
        error: Some(String::from("boom")),
        payload: vec![1],
    };
    assert_eq!(into_result(Outcome::Reply(failed)), Err(CallError::Server(String::from("boom"))));
    let silent = Inbound { seq: 1, status: ReplyStatus::Error, error: None, payload: vec![1] };
    assert_eq!(into_result(Outcome::Reply(silent)), Err(CallError::Server(String::new())));
    assert_eq!(
        into_result(Outcome::Failed(Failure::ConnectionClosed)),
        Err(CallError::ConnectionClosed)
    );
}

#[test]
fn cancel_removes_the_call_and_a_late_reply_is_dropped() {
    let mut c = open_client();
    send(&mut c, "Mul", &[], 10).unwrap();
    send(&mut c, "Mul", &[], 20).unwrap();
    assert_eq!(c.cancel(1), Some(10));
    assert_eq!(c.cancel(1), None);
    assert_eq!(c.cancel(7), None);
    assert_eq!(c.pending_len(), 1);
    assert!(matches!(
        c.on_bytes(&response_frame(1, &[1])),
        ReadStep::Frame { resolution: Resolution::Unmatched(_), .. }
    ));
    let released = {
        c.begin_teardown();
        c.finish_teardown()
    };
    assert_eq!(released.len(), 1);
    assert_eq!(released[0].slot, 20);
}

#[test]
fn register_then_enqueue_does_what_async_send_does() {
    let mut c = open_client();
    let seq = c.register_call(5).unwrap();
    assert_eq!(seq, 1);
    assert_eq!(c.pending_len(), 1);
    assert_eq!(c.next_outbound(), None);
    assert!(c.enqueue(OutboundFrame { seq, data: vec![1, 2, 3] }));
    assert_eq!(c.next_outbound(), Some(OutboundFrame { seq: 1, data: vec![1, 2, 3] }));
}

#[test]
fn a_frame_for_no_pending_call_is_not_queued() {
    let mut c = open_client();
    assert!(!c.enqueue(OutboundFrame { seq: 1, data: vec![1] }));
    let seq = c.register_call(5).unwrap();
    assert!(!c.enqueue(OutboundFrame { seq: seq + 1, data: vec![1] }));
    c.cancel(seq);
    assert!(!c.enqueue(OutboundFrame { seq, data: vec![1] }));
    assert_eq!(c.next_outbound(), None);
    let seq = c.register_call(6).unwrap();
    c.begin_teardown();
    assert!(!c.enqueue(OutboundFrame { seq, data: vec![1] }));
}

#[test]
fn on_decoded_decides_for_each_result() {
    let mut c = open_client();
    send(&mut c, "Mul", &[], 1).unwrap();
    assert!(matches!(c.on_decoded(Err(DecodeError::Incomplete)), ReadStep::Wait));
    assert_eq!(c.state(), ConnState::Open);
    let (consumed, seq, slot, outcome) = delivered(c.on_decoded(Ok((reply(1, &[4]), 40))));
    assert_eq!((consumed, seq, slot), (40, 1, 1));
    assert_eq!(outcome, Outcome::Reply(reply(1, &[4])));
    assert!(matches!(c.on_decoded(Err(DecodeError::Malformed)), ReadStep::Broken { began: true }));
    assert_eq!(c.state(), ConnState::Closing);
}
