//! The client of one connection: what is decided when a call is issued, when
//! bytes arrive, when a frame is due to be written and when the connection
//! ends.
//!
//! The client owns no transport and no thread. The program around it opens
//! the transport, runs one loop that reads and one that writes, and calls
//! the client at each event, under a lock where several threads share it.

use crate::codec::{decode, decode_spec, encode_request, encodes, reads, MessageKind};
use crate::codec::PROTOCOL_VERSION;
use crate::connection::{step_spec, ConnEvent, ConnState};
use crate::error::{CallError, ConnectError, DecodeError};
use crate::message::{Delivery, Failure, Inbound, OutboundFrame, Outcome, ReplyStatus};
use crate::pending::{drain_spec, resolve_spec, PendingTable, Resolution};
use crate::sequence::SequenceGenerator;
use std::collections::HashMap;
use std::collections::VecDeque;
use vstd::prelude::*;

verus! {

/// A direct client of one server. `S` is the result slot of a call: whatever
/// the caller waits on.
pub struct Client<S> {
    addr: &'static str,
    state: ConnState,
    seq: SequenceGenerator,
    pending: PendingTable<S>,
    outbound: VecDeque<OutboundFrame>,
    resolved: u64,
}

/// A client as mathematical values.
#[verifier::ext_equal]
pub struct ClientView<S> {
    /// The address of the server.
    pub addr: Seq<char>,
    pub state: ConnState,
    /// The number of calls issued on this connection, which is also the
    /// sequence number of the last.
    pub issued: nat,
    /// The number of calls of this connection that have left the table.
    pub resolved: nat,
    /// The slot of each pending call, by sequence number.
    pub pending: Map<u64, S>,
    /// The sequence numbers of the pending calls, in the order of issue.
    pub order: Seq<u64>,
    /// The frames that wait to be written, the next one first.
    pub outbound: Seq<OutboundFrame>,
}

/// What holds of a client at all times.
pub open spec fn inv<S>(v: ClientView<S>) -> bool {
    &&& v.issued <= u64::MAX
    &&& v.order.to_set() == v.pending.dom()
    &&& forall|i: int, j: int| 0 <= i < j < v.order.len() ==> v.order[i] < v.order[j]
    &&& forall|i: int| 0 <= i < v.order.len() ==> 1 <= #[trigger] v.order[i] <= v.issued
    &&& v.order.len() + v.resolved == v.issued
    &&& (v.state == ConnState::Closed || v.state == ConnState::Connecting) ==> v.order.len() == 0
    &&& v.state != ConnState::Open ==> v.outbound.len() == 0
    &&& forall|i: int| 0 <= i < v.outbound.len() ==> 1 <= #[trigger] v.outbound[i].seq <= v.issued
}

/// A client that was just made.
pub open spec fn fresh_spec<S>(addr: Seq<char>) -> ClientView<S> {
    ClientView {
        addr,
        state: ConnState::Closed,
        issued: 0,
        resolved: 0,
        pending: Map::empty(),
        order: Seq::empty(),
        outbound: Seq::empty(),
    }
}

/// The application asks for the connection: a closed client starts to
/// connect, with a fresh run of sequence numbers.
pub open spec fn start_spec<S>(v: ClientView<S>) -> (ClientView<S>, Result<(), ConnectError>) {
    match step_spec(v.state, ConnEvent::Start) {
        Some(next) => (ClientView { state: next, issued: 0, resolved: 0, ..v }, Ok(())),
        None => (v, Err(ConnectError::Busy)),
    }
}

/// The attempt to open the transport has ended.
pub open spec fn established_spec<S>(v: ClientView<S>, connected: bool) -> (
    ClientView<S>,
    Result<(), ConnectError>,
) {
    let event = if connected {
        ConnEvent::Established
    } else {
        ConnEvent::Failed
    };
    match step_spec(v.state, event) {
        Some(next) => (
            ClientView { state: next, ..v },
            if connected {
                Ok(())
            } else {
                Err(ConnectError::Unreachable)
            },
        ),
        None => (v, Err(ConnectError::Busy)),
    }
}

/// A call is issued: it gets the next sequence number and enters the table.
pub open spec fn register_call_spec<S>(v: ClientView<S>, reply: S) -> (
    ClientView<S>,
    Result<u64, CallError>,
) {
    if v.state != ConnState::Open {
        (v, Err(CallError::NotConnected))
    } else if v.issued >= u64::MAX {
        (v, Err(CallError::SequenceExhausted))
    } else {
        let seq = (v.issued + 1) as u64;
        (
            ClientView {
                issued: v.issued + 1,
                pending: v.pending.insert(seq, reply),
                order: v.order.push(seq),
                ..v
            },
            Ok(seq),
        )
    }
}

/// A frame is handed to the writer: it joins the queue if the connection is
/// open and the call that it belongs to is pending.
pub open spec fn enqueue_spec<S>(v: ClientView<S>, frame: OutboundFrame) -> (ClientView<S>, bool) {
    if v.state == ConnState::Open && v.pending.contains_key(frame.seq) {
        (ClientView { outbound: v.outbound.push(frame), ..v }, true)
    } else {
        (v, false)
    }
}

/// A call is issued and its frame, with the bytes `data`, is handed to the
/// writer.
pub open spec fn send_spec<S>(v: ClientView<S>, reply: S, data: Vec<u8>) -> (
    ClientView<S>,
    Result<u64, CallError>,
) {
    let registered = register_call_spec(v, reply);
    match registered.1 {
        Ok(seq) => (enqueue_spec(registered.0, OutboundFrame { seq, data }).0, Ok(seq)),
        Err(e) => (v, Err(e)),
    }
}

/// `order` without `seq`.
pub open spec fn without(order: Seq<u64>, seq: u64) -> Seq<u64> {
    if order.contains(seq) {
        order.remove(order.index_of(seq))
    } else {
        order
    }
}

/// A message has arrived.
pub open spec fn message_spec<S>(v: ClientView<S>, message: Inbound) -> (
    ClientView<S>,
    Resolution<S>,
) {
    let resolved = resolve_spec(v.pending, message);
    if v.pending.contains_key(message.seq) {
        (
            ClientView {
                pending: resolved.0,
                order: without(v.order, message.seq),
                resolved: v.resolved + 1,
                ..v
            },
            resolved.1,
        )
    } else {
        (v, resolved.1)
    }
}

/// A caller gives up waiting.
pub open spec fn cancel_spec<S>(v: ClientView<S>, seq: u64) -> (ClientView<S>, Option<S>) {
    if v.pending.contains_key(seq) {
        (
            ClientView {
                pending: v.pending.remove(seq),
                order: without(v.order, seq),
                resolved: v.resolved + 1,
                ..v
            },
            Some(v.pending[seq]),
        )
    } else {
        (v, None)
    }
}

/// The writer asks for the next frame.
pub open spec fn next_outbound_spec<S>(v: ClientView<S>) -> (
    ClientView<S>,
    Option<OutboundFrame>,
) {
    if v.outbound.len() > 0 {
        (ClientView { outbound: v.outbound.drop_first(), ..v }, Some(v.outbound[0]))
    } else {
        (v, None)
    }
}

/// Teardown begins: an open connection takes no more calls and writes no more
/// frames. The result says whether this was the event that began it.
pub open spec fn begin_teardown_spec<S>(v: ClientView<S>) -> (ClientView<S>, bool) {
    match step_spec(v.state, ConnEvent::Teardown) {
        Some(next) => (ClientView { state: next, outbound: Seq::empty(), ..v }, true),
        None => (v, false),
    }
}

/// Teardown ends: every pending call is released with `ConnectionClosed`.
pub open spec fn finish_teardown_spec<S>(v: ClientView<S>) -> (ClientView<S>, Seq<Delivery<S>>) {
    match step_spec(v.state, ConnEvent::Released) {
        Some(next) => (
            ClientView {
                state: next,
                pending: Map::empty(),
                order: Seq::empty(),
                resolved: v.resolved + v.order.len(),
                ..v
            },
            drain_spec(v.pending, v.order, Failure::ConnectionClosed),
        ),
        None => (v, Seq::empty()),
    }
}

/// What the reader is to do once the client has seen the bytes that the
/// reader holds.
#[derive(Debug)]
pub enum ReadStep<S> {
    /// The bytes are the beginning of a frame: read more and show them again.
    Wait,
    /// The bytes started with a frame of `consumed` bytes, which are done
    /// with. `resolution` says what became of its message.
    Frame { consumed: usize, resolution: Resolution<S> },
    /// The bytes are no frame: stop reading. `began` says whether this began
    /// teardown.
    Broken { began: bool },
}

/// The message that a resolution holds.
pub open spec fn message_of<S>(resolution: Resolution<S>) -> Inbound {
    match resolution {
        Resolution::Delivered(delivery) => match delivery.outcome {
            Outcome::Reply(message) => message,
            Outcome::Failed(_) => arbitrary(),
        },
        Resolution::Unmatched(message) => message,
    }
}

/// The reader has tried to decode what it holds.
pub open spec fn decoded_spec<S>(
    v: ClientView<S>,
    decoded: Result<(Inbound, usize), DecodeError>,
) -> (ClientView<S>, ReadStep<S>) {
    match decoded {
        Ok((message, consumed)) => (
            message_spec(v, message).0,
            ReadStep::Frame { consumed, resolution: message_spec(v, message).1 },
        ),
        Err(DecodeError::Incomplete) => (v, ReadStep::Wait),
        Err(DecodeError::Malformed) => (
            begin_teardown_spec(v).0,
            ReadStep::Broken { began: begin_teardown_spec(v).1 },
        ),
    }
}

/// The text of the error that a message with error status reports: the
/// server's message, empty where it sent none.
pub open spec fn error_text(message: Inbound) -> Seq<char> {
    match message.error {
        Some(text) => text@,
        None => Seq::empty(),
    }
}

/// Turns the outcome of a call into what the caller gets: the payload of a
/// reply with normal status, to be deserialized by the caller; `Server` with
/// the server's message for a reply with error status; `ConnectionClosed`
/// for a call that the teardown released.
pub fn into_result(outcome: Outcome) -> (r: Result<Vec<u8>, CallError>)
    ensures
        match outcome {
            Outcome::Reply(message) => match message.status {
                ReplyStatus::Normal => r == Ok::<Vec<u8>, CallError>(message.payload),
                ReplyStatus::Error => r matches Err(CallError::Server(text)) && text@
                    == error_text(message),
            },
            Outcome::Failed(Failure::ConnectionClosed) => r == Err::<Vec<u8>, CallError>(
                CallError::ConnectionClosed,
            ),
        },
{
    match outcome {
        Outcome::Reply(message) => match message.status {
            ReplyStatus::Normal => Ok(message.payload),
            ReplyStatus::Error => match message.error {
                Some(text) => Err(CallError::Server(text)),
                None => Err(CallError::Server(String::new())),
            },
        },
        Outcome::Failed(Failure::ConnectionClosed) => Err(CallError::ConnectionClosed),
    }
}

/// Everything that can happen to a client.
pub enum Event<S> {
    /// [`Client::start`].
    Start,
    /// [`Client::established`].
    Established(bool),
    /// [`Client::register_call`] with this slot.
    Call(S),
    /// [`Client::enqueue`] of this frame.
    Enqueue(OutboundFrame),
    /// [`Client::on_message`] with this message.
    Message(Inbound),
    /// [`Client::cancel`] of this call.
    Cancel(u64),
    /// [`Client::next_outbound`].
    NextOutbound,
    /// [`Client::begin_teardown`].
    BeginTeardown,
    /// [`Client::finish_teardown`].
    FinishTeardown,
}

/// The client after `event`.
pub open spec fn apply_spec<S>(v: ClientView<S>, event: Event<S>) -> ClientView<S> {
    match event {
        Event::Start => start_spec(v).0,
        Event::Established(connected) => established_spec(v, connected).0,
        Event::Call(reply) => register_call_spec(v, reply).0,
        Event::Enqueue(frame) => enqueue_spec(v, frame).0,
        Event::Message(message) => message_spec(v, message).0,
        Event::Cancel(seq) => cancel_spec(v, seq).0,
        Event::NextOutbound => next_outbound_spec(v).0,
        Event::BeginTeardown => begin_teardown_spec(v).0,
        Event::FinishTeardown => finish_teardown_spec(v).0,
    }
}

/// The client after `events`, one after the other.
pub open spec fn run_spec<S>(v: ClientView<S>, events: Seq<Event<S>>) -> ClientView<S>
    decreases events.len(),
{
    if events.len() == 0 {
        v
    } else {
        apply_spec(run_spec(v, events.drop_last()), events.last())
    }
}

/// Whether `event` ends the call `seq`: a message with its number, its
/// cancellation, or the end of teardown.
pub open spec fn ends_call<S>(event: Event<S>, seq: u64) -> bool {
    match event {
        Event::Message(message) => message.seq == seq,
        Event::Cancel(cancelled) => cancelled == seq,
        Event::FinishTeardown => true,
        _ => false,
    }
}

impl<S> View for Client<S> {
    type V = ClientView<S>;

    closed spec fn view(&self) -> ClientView<S> {
        ClientView {
            addr: self.addr@,
            state: self.state,
            issued: self.seq@,
            resolved: self.resolved as nat,
            pending: self.pending@,
            order: self.pending.order(),
            outbound: self.outbound@,
        }
    }
}

impl<S> Client<S> {
    /// Whether the client is in order. Every client that this module hands
    /// out is.
    pub closed spec fn wf(&self) -> bool {
        self.pending.wf() && inv(self@)
    }

    /// A client in order meets the invariant.
    pub proof fn lemma_wf_is_inv(&self)
        requires
            self.wf(),
        ensures
            inv(self@),
    {
    }

    /// A client for the server at `addr`. Nothing is opened.
    pub fn new(addr: &'static str) -> (c: Client<S>)
        ensures
            c.wf(),
            c@ == fresh_spec::<S>(addr@),
    {
        let c = Client {
            addr,
            state: ConnState::Closed,
            seq: SequenceGenerator::new(),
            pending: PendingTable::new(),
            outbound: VecDeque::new(),
            resolved: 0,
        };
        proof {
            assert(c@.order.to_set() =~= c@.pending.dom());
            assert(c@ =~= fresh_spec::<S>(addr@));
        }
        c
    }

    /// The address of the server.
    pub fn addr(&self) -> (a: &'static str)
        ensures
            a@ == self@.addr,
    {
        self.addr
    }

    /// The state of the connection.
    pub fn state(&self) -> (s: ConnState)
        ensures
            s == self@.state,
    {
        self.state
    }

    /// The number of pending calls.
    pub fn pending_len(&self) -> (n: usize)
        requires
            self.wf(),
        ensures
            n == self@.order.len(),
            n == self@.pending.dom().len(),
    {
        self.pending.len()
    }

    /// The sequence number of the last call issued on this connection, 0
    /// before the first.
    pub fn last_issued(&self) -> (n: u64)
        ensures
            n == self@.issued,
    {
        self.seq.last_issued()
    }

    /// The application asks for the connection. A closed client goes to
    /// `Connecting` and starts a fresh run of sequence numbers; the caller
    /// then opens the transport and reports with [`Client::established`]. In
    /// any other state nothing changes and the answer is `Busy`.
    pub fn start(&mut self) -> (r: Result<(), ConnectError>)
        requires
            old(self).wf(),
        ensures
            final(self).wf(),
            (final(self)@, r) == start_spec(old(self)@),
    {
        match self.state.step(ConnEvent::Start) {
            Some(next) => {
                self.state = next;
                self.seq = SequenceGenerator::new();
                self.resolved = 0;
                Ok(())
            },
            None => Err(ConnectError::Busy),
        }
    }

    /// Reports how the attempt to open the transport ended. A connecting
    /// client goes to `Open` if it succeeded, where the caller starts the
    /// two loops, and back to `Closed` with `Unreachable` if it did not. In
    /// any other state nothing changes and the answer is `Busy`.
    pub fn established(&mut self, connected: bool) -> (r: Result<(), ConnectError>)
        requires
            old(self).wf(),
        ensures
            final(self).wf(),
            (final(self)@, r) == established_spec(old(self)@, connected),
    {
        let event = if connected {
            ConnEvent::Established
        } else {
            ConnEvent::Failed
        };
        match self.state.step(event) {
            Some(next) => {
                self.state = next;
                if connected {
                    Ok(())
                } else {
                    Err(ConnectError::Unreachable)
                }
            },
            None => Err(ConnectError::Busy),
        }
    }

    /// Issues a call: takes the next sequence number and enters the call
    /// into the table with `reply` as its slot. Fails with `NotConnected`
    /// unless the connection is open, and with `SequenceExhausted` once every
    /// number has been used; the client is then unchanged.
    pub fn register_call(&mut self, reply: S) -> (r: Result<u64, CallError>)
        requires
            old(self).wf(),
        ensures
            final(self).wf(),
            (final(self)@, r) == register_call_spec(old(self)@, reply),
    {
        if !self.state.accepts_calls() {
            return Err(CallError::NotConnected);
        }
        let seq: u64 = match self.seq.next() {
            Some(seq) => seq,
            None => {
                return Err(CallError::SequenceExhausted);
            },
        };
        proof {
            lemma_register_call_keeps_inv(old(self)@, reply);
        }
        // The number is fresh, so the table takes the call.
        let _taken = self.pending.register(seq, reply);
        proof {
            assert(self@ =~= register_call_spec(old(self)@, reply).0);
        }
        Ok(seq)
    }

    /// Hands a frame to the writer. The frame joins the queue if the
    /// connection is open and the call that it belongs to is pending;
    /// otherwise it is dropped and the answer is `false`. The bytes are not
    /// looked at.
    pub fn enqueue(&mut self, frame: OutboundFrame) -> (queued: bool)
        requires
            old(self).wf(),
        ensures
            final(self).wf(),
            (final(self)@, queued) == enqueue_spec(old(self)@, frame),
    {
        if self.state.accepts_calls() && self.pending.contains(frame.seq) {
            proof {
                lemma_enqueue_keeps_inv(old(self)@, frame);
            }
            self.outbound.push_back(frame);
            proof {
                assert(self@ =~= enqueue_spec(old(self)@, frame).0);
            }
            true
        } else {
            false
        }
    }

    /// Issues a call of `service_method` at `service_path`: takes the next
    /// sequence number, enters the call into the table with `reply` as its
    /// slot, encodes the request and queues the frame for the writer. `args`
    /// are the arguments as the caller serialized them. Returns the sequence
    /// number.
    ///
    /// Fails with `NotConnected` unless the connection is open, and with
    /// `SequenceExhausted` once every number has been used; the client is
    /// then unchanged. The bytes of the frame are the codec's: a request with
    /// this sequence number, path, method and payload.
    pub fn async_send(
        &mut self,
        service_path: String,
        service_method: String,
        metadata: HashMap<String, String>,
        args: Vec<u8>,
        reply: S,
    ) -> (r: Result<u64, CallError>)
        requires
            old(self).wf(),
        ensures
            final(self).wf(),
            (final(self)@, r) == send_spec(old(self)@, reply, final(self)@.outbound.last().data),
            r is Ok ==> encodes(
                final(self)@.outbound.last().data@,
                PROTOCOL_VERSION,
                MessageKind::Request,
                r->Ok_0,
                service_path@,
                service_method@,
                args@,
            ),
    {
        let seq: u64 = match self.register_call(reply) {
            Ok(seq) => seq,
            Err(e) => {
                return Err(e);
            },
        };
        let data = encode_request(seq, service_path, service_method, metadata, args);
        self.enqueue(OutboundFrame { seq, data });
        Ok(seq)
    }

    /// Takes in a message from the server. If the call that it answers is
    /// pending, the call leaves the table and the message is to be delivered
    /// into its slot. If not, the message is dropped and nothing changes.
    pub fn on_message(&mut self, message: Inbound) -> (r: Resolution<S>)
        requires
            old(self).wf(),
        ensures
            final(self).wf(),
            (final(self)@, r) == message_spec(old(self)@, message),
    {
        proof {
            lemma_removal_keeps_inv(old(self)@, message.seq);
        }
        let r = self.pending.resolve(message);
        match r {
            Resolution::Delivered(_) => {
                self.resolved = self.resolved + 1;
                proof {
                    assert(self@ =~= message_spec(old(self)@, message).0);
                }
            },
            Resolution::Unmatched(_) => {
                proof {
                    assert(self@ =~= old(self)@);
                }
            },
        }
        r
    }

    /// Decides what follows from an attempt to decode: a message is held
    /// against the table, as [`Client::on_message`] does; an incomplete frame
    /// changes nothing; a malformed one begins teardown, as
    /// [`Client::begin_teardown`] does.
    pub fn on_decoded(&mut self, decoded: Result<(Inbound, usize), DecodeError>) -> (r: ReadStep<S>)
        requires
            old(self).wf(),
        ensures
            final(self).wf(),
            (final(self)@, r) == decoded_spec(old(self)@, decoded),
    {
        match decoded {
            Ok((message, consumed)) => {
                let resolution = self.on_message(message);
                ReadStep::Frame { consumed, resolution }
            },
            Err(DecodeError::Incomplete) => ReadStep::Wait,
            Err(DecodeError::Malformed) => {
                let began = self.begin_teardown();
                ReadStep::Broken { began }
            },
        }
    }

    /// Takes in the bytes that the reader holds. If they start with a whole
    /// frame, its message is decoded and held against the table, and the
    /// answer tells how many bytes the frame took. If they are the beginning
    /// of a frame, nothing changes and the reader is to read more. If they
    /// are no frame, or the decoder refuses the frame, teardown begins.
    pub fn on_bytes(&mut self, buf: &[u8]) -> (r: ReadStep<S>)
        requires
            old(self).wf(),
        ensures
            final(self).wf(),
            match decode_spec(buf@) {
                Ok((m, n)) => r matches ReadStep::Frame { consumed, resolution } && consumed == n
                    && n <= buf@.len() && message_of(resolution)@ == m && reads(
                    m,
                    buf@.subrange(0, n as int),
                ) && (final(self)@, resolution) == message_spec(
                    old(self)@,
                    message_of(resolution),
                ),
                Err(e) => (final(self)@, r) == decoded_spec(
                    old(self)@,
                    Err::<(Inbound, usize), DecodeError>(e),
                ),
            },
    {
        let decoded = decode(buf);
        self.on_decoded(decoded)
    }

    /// Takes a call out of the table for a caller who has given up waiting,
    /// so that the table does not grow with abandoned calls. Returns the
    /// slot, or `None` if no such call is pending. A reply that arrives later
    /// finds no call and is dropped.
    pub fn cancel(&mut self, seq: u64) -> (r: Option<S>)
        requires
            old(self).wf(),
        ensures
            final(self).wf(),
            (final(self)@, r) == cancel_spec(old(self)@, seq),
    {
        proof {
            lemma_removal_keeps_inv(old(self)@, seq);
        }
        let r = self.pending.cancel(seq);
        if r.is_some() {
            self.resolved = self.resolved + 1;
            proof {
                assert(self@ =~= cancel_spec(old(self)@, seq).0);
            }
        } else {
            proof {
                assert(self@ =~= old(self)@);
            }
        }
        r
    }

    /// The next frame for the writer, in the order in which the frames were
    /// queued, or `None` where none waits.
    pub fn next_outbound(&mut self) -> (r: Option<OutboundFrame>)
        requires
            old(self).wf(),
        ensures
            final(self).wf(),
            (final(self)@, r) == next_outbound_spec(old(self)@),
    {
        let ghost before = self@;
        let r = self.outbound.pop_front();
        proof {
            if before.outbound.len() > 0 {
                assert(self@.outbound =~= before.outbound.drop_first());
                assert forall|i: int| 0 <= i < self@.outbound.len() implies 1
                    <= #[trigger] self@.outbound[i].seq <= self@.issued by {
                    assert(self@.outbound[i] == before.outbound[i + 1]);
                }
            }
        }
        r
    }

    /// Begins teardown, for any cause: the stream ended, a read or a write
    /// failed, or the application asks for the end. An open client goes to
    /// `Closing` and forgets the frames not yet written; the answer is
    /// `true`, and the caller shuts the transport down and then calls
    /// [`Client::finish_teardown`]. In any other state nothing changes and
    /// the answer is `false`: teardown happens once.
    pub fn begin_teardown(&mut self) -> (began: bool)
        requires
            old(self).wf(),
        ensures
            final(self).wf(),
            (final(self)@, began) == begin_teardown_spec(old(self)@),
    {
        match self.state.step(ConnEvent::Teardown) {
            Some(next) => {
                self.state = next;
                self.outbound.clear();
                true
            },
            None => false,
        }
    }

    /// Ends teardown. A closing client goes to `Closed` and releases every
    /// pending call: the deliveries, in the order in which the calls were
    /// issued, each put `ConnectionClosed` into the slot of one. In any other
    /// state nothing changes and there is nothing to deliver.
    pub fn finish_teardown(&mut self) -> (r: Vec<Delivery<S>>)
        requires
            old(self).wf(),
        ensures
            final(self).wf(),
            (final(self)@, r@) == finish_teardown_spec(old(self)@),
    {
        match self.state.step(ConnEvent::Released) {
            Some(next) => {
                self.state = next;
                self.resolved = self.seq.last_issued();
                let r = self.pending.drain_all(Failure::ConnectionClosed);
                proof {
                    self.pending.lemma_order_lists_the_calls();
                }
                r
            },
            None => Vec::new(),
        }
    }
}

/// Whether `seq` is pending can be read from the order as well as from the
/// table.
pub proof fn lemma_pending_is_listed<S>(v: ClientView<S>, seq: u64)
    requires
        inv(v),
    ensures
        v.pending.contains_key(seq) <==> v.order.contains(seq),
        v.pending.contains_key(seq) ==> 1 <= seq <= v.issued,
{
    assert(v.order.to_set().contains(seq) <==> v.order.contains(seq));
    if v.order.contains(seq) {
        let i = v.order.index_of(seq);
        assert(v.order[i] == seq);
    }
}

/// Issuing a call keeps the invariant.
pub proof fn lemma_register_call_keeps_inv<S>(v: ClientView<S>, reply: S)
    requires
        inv(v),
    ensures
        inv(register_call_spec(v, reply).0),
{
    let after = register_call_spec(v, reply).0;
    if v.state == ConnState::Open && v.issued < u64::MAX {
        let seq = (v.issued + 1) as u64;
        lemma_pending_is_listed(v, seq);
        assert forall|k: u64| after.order.to_set().contains(k) <==> after.pending.dom().contains(
            k,
        ) by {
            lemma_pending_is_listed(v, k);
            if after.order.contains(k) {
                let i = after.order.index_of(k);
                assert(after.order[i] == k);
                if i < v.order.len() {
                    assert(v.order[i] == k);
                }
            }
            if v.order.contains(k) {
                let i = v.order.index_of(k);
                assert(after.order[i] == k);
            }
            if k == seq {
                assert(after.order[v.order.len() as int] == k);
            }
        }
        assert(after.order.to_set() =~= after.pending.dom());
        assert forall|i: int| 0 <= i < after.order.len() implies 1 <= #[trigger] after.order[i]
            <= after.issued by {
            if i < v.order.len() {
                assert(after.order[i] == v.order[i]);
            }
        }
        assert forall|i: int, j: int| 0 <= i < j < after.order.len() implies after.order[i]
            < after.order[j] by {
            assert(after.order[i] == v.order[i]);
            if j < v.order.len() {
                assert(after.order[j] == v.order[j]);
            }
        }
        assert forall|i: int| 0 <= i < after.outbound.len() implies 1
            <= #[trigger] after.outbound[i].seq <= after.issued by {
            assert(after.outbound[i] == v.outbound[i]);
        }
    }
}

/// Queueing a frame keeps the invariant.
pub proof fn lemma_enqueue_keeps_inv<S>(v: ClientView<S>, frame: OutboundFrame)
    requires
        inv(v),
    ensures
        inv(enqueue_spec(v, frame).0),
{
    let after = enqueue_spec(v, frame).0;
    lemma_pending_is_listed(v, frame.seq);
    assert forall|i: int| 0 <= i < after.outbound.len() implies 1
        <= #[trigger] after.outbound[i].seq <= after.issued by {
        if i < v.outbound.len() {
            assert(after.outbound[i] == v.outbound[i]);
        }
    }
}

/// A call that leaves the table, answered or abandoned, keeps the invariant.
pub proof fn lemma_removal_keeps_inv<S>(v: ClientView<S>, seq: u64)
    requires
        inv(v),
    ensures
        inv(cancel_spec(v, seq).0),
        forall|message: Inbound| message.seq == seq ==> inv(#[trigger] message_spec(v, message).0),
        !v.pending.contains_key(seq) ==> without(v.order, seq) == v.order,
        v.pending.contains_key(seq) ==> v.order.contains(seq) && v.resolved < v.issued,
{
    let after = cancel_spec(v, seq).0;
    lemma_pending_is_listed(v, seq);
    if v.pending.contains_key(seq) {
        let at = v.order.index_of(seq);
        assert(v.order[at] == seq);
        let rest = v.order.remove(at);
        assert(after.order == rest);
        assert forall|i: int| 0 <= i < rest.len() implies rest[i] == v.order[if i < at {
            i
        } else {
            i + 1
        }] by {}
        assert forall|i: int, j: int| 0 <= i < j < rest.len() implies rest[i] < rest[j] by {
            assert(rest[i] == v.order[if i < at { i } else { i + 1 }]);
            assert(rest[j] == v.order[if j < at { j } else { j + 1 }]);
        }
        assert forall|i: int| 0 <= i < rest.len() implies 1 <= #[trigger] rest[i] <= v.issued by {
            assert(rest[i] == v.order[if i < at { i } else { i + 1 }]);
        }
        assert forall|k: u64| rest.to_set().contains(k) <==> after.pending.dom().contains(k) by {
            lemma_pending_is_listed(v, k);
            if rest.contains(k) {
                let i = rest.index_of(k);
                assert(rest[i] == k);
                let i0 = if i < at { i } else { i + 1 };
                assert(v.order[i0] == k);
                assert(i0 != at);
            }
            if v.order.contains(k) && k != seq {
                let i0 = v.order.index_of(k);
                assert(v.order[i0] == k);
                let i = if i0 < at { i0 } else { i0 - 1 };
                assert(rest[i] == k);
            }
        }
        assert(rest.to_set() =~= after.pending.dom());
        assert forall|message: Inbound| message.seq == seq implies inv(
            #[trigger] message_spec(v, message).0,
        ) by {
            assert(message_spec(v, message).0 =~= after);
        }
    }
}

/// The table holds the calls that were issued and have not been resolved:
/// its size is the number of calls issued less the number resolved.
pub proof fn lemma_table_size<S>(v: ClientView<S>)
    requires
        inv(v),
    ensures
        v.pending.dom().finite(),
        v.pending.dom().len() == v.issued - v.resolved,
{
    v.order.unique_seq_to_set();
    vstd::seq_lib::seq_to_set_is_finite(v.order);
}

/// A message with a sequence number that this connection never issued is
/// dropped, and the client is as it was.
pub proof fn lemma_unissued_reply_is_dropped<S>(v: ClientView<S>, message: Inbound)
    requires
        inv(v),
        message.seq == 0 || message.seq > v.issued,
    ensures
        message_spec(v, message) == (v, Resolution::<S>::Unmatched(message)),
{
    lemma_pending_is_listed(v, message.seq);
}

/// A sequence number is pending at most once, and a second message with the
/// number of a call that has been answered is dropped.
pub proof fn lemma_duplicate_reply_is_dropped<S>(v: ClientView<S>, first: Inbound, second: Inbound)
    requires
        first.seq == second.seq,
    ensures
        message_spec(message_spec(v, first).0, second) == (
            message_spec(v, first).0,
            Resolution::<S>::Unmatched(second),
        ),
{
}

/// After teardown every call that was pending has ended with
/// `ConnectionClosed`, none is left in the table, and no call is accepted:
/// neither while the connection is closing nor when it is closed.
pub proof fn lemma_teardown_releases_every_call<S>(v: ClientView<S>, seq: u64, reply: S)
    requires
        inv(v),
        v.state == ConnState::Open,
        v.pending.contains_key(seq),
    ensures
        ({
            let closing = begin_teardown_spec(v).0;
            let closed = finish_teardown_spec(closing).0;
            let deliveries = finish_teardown_spec(closing).1;
            &&& begin_teardown_spec(v).1
            &&& inv(closing)
            &&& inv(closed)
            &&& closed.state == ConnState::Closed
            &&& closed.pending == Map::<u64, S>::empty()
            &&& closed.resolved == closed.issued
            &&& deliveries.len() == v.pending.dom().len()
            &&& exists|i: int|
                0 <= i < deliveries.len() && deliveries[i] == (Delivery {
                    seq,
                    slot: v.pending[seq],
                    outcome: Outcome::Failed(Failure::ConnectionClosed),
                })
            &&& register_call_spec(closing, reply).1 == Err::<u64, CallError>(
                CallError::NotConnected,
            )
            &&& register_call_spec(closed, reply).1 == Err::<u64, CallError>(
                CallError::NotConnected,
            )
        }),
{
    let closing = begin_teardown_spec(v).0;
    let closed = finish_teardown_spec(closing).0;
    let deliveries = finish_teardown_spec(closing).1;
    lemma_table_size(v);
    lemma_pending_is_listed(v, seq);
    let i = v.order.index_of(seq);
    assert(v.order[i] == seq);
    assert(deliveries[i] == (Delivery {
        seq,
        slot: v.pending[seq],
        outcome: Outcome::Failed(Failure::ConnectionClosed),
    }));
    assert(closed.order.to_set() =~= closed.pending.dom());
}

/// Teardown happens once: to begin it again, or to end it again, changes
/// nothing and releases nothing.
pub proof fn lemma_teardown_happens_once<S>(v: ClientView<S>)
    ensures
        begin_teardown_spec(begin_teardown_spec(v).0) == (begin_teardown_spec(v).0, false),
        finish_teardown_spec(finish_teardown_spec(v).0) == (
            finish_teardown_spec(v).0,
            Seq::<Delivery<S>>::empty(),
        ),
{
}

/// Every event keeps the invariant.
pub proof fn lemma_event_keeps_inv<S>(v: ClientView<S>, event: Event<S>)
    requires
        inv(v),
    ensures
        inv(apply_spec(v, event)),
{
    let after = apply_spec(v, event);
    match event {
        Event::Start => {},
        Event::Established(_) => {},
        Event::Call(reply) => {
            lemma_register_call_keeps_inv(v, reply);
        },
        Event::Enqueue(frame) => {
            lemma_enqueue_keeps_inv(v, frame);
        },
        Event::Message(message) => {
            lemma_removal_keeps_inv(v, message.seq);
        },
        Event::Cancel(seq) => {
            lemma_removal_keeps_inv(v, seq);
        },
        Event::NextOutbound => {
            if v.outbound.len() > 0 {
                assert forall|i: int| 0 <= i < after.outbound.len() implies 1
                    <= #[trigger] after.outbound[i].seq <= after.issued by {
                    assert(after.outbound[i] == v.outbound[i + 1]);
                }
            }
        },
        Event::BeginTeardown => {},
        Event::FinishTeardown => {
            assert(after.state == ConnState::Closed ==> after.order.to_set()
                =~= after.pending.dom());
        },
    }
}

/// The invariant holds in every state that a client can reach: whatever
/// happens to a client that was just made, it holds afterwards.
pub proof fn lemma_inv_always<S>(addr: Seq<char>, events: Seq<Event<S>>)
    ensures
        inv(run_spec(fresh_spec::<S>(addr), events)),
    decreases events.len(),
{
    if events.len() == 0 {
        assert(fresh_spec::<S>(addr).order.to_set() =~= fresh_spec::<S>(addr).pending.dom());
    } else {
        lemma_inv_always::<S>(addr, events.drop_last());
        lemma_event_keeps_inv(run_spec(fresh_spec::<S>(addr), events.drop_last()), events.last());
    }
}

/// A call stays in the table, with its slot, until an event ends it.
pub proof fn lemma_call_stays_pending<S>(v: ClientView<S>, seq: u64, events: Seq<Event<S>>)
    requires
        inv(v),
        v.pending.contains_key(seq),
        forall|i: int| 0 <= i < events.len() ==> !ends_call(#[trigger] events[i], seq),
    ensures
        inv(run_spec(v, events)),
        run_spec(v, events).pending.contains_key(seq),
        run_spec(v, events).pending[seq] == v.pending[seq],
        run_spec(v, events).issued >= v.issued,
    decreases events.len(),
{
    if events.len() > 0 {
        let front = events.drop_last();
        assert forall|i: int| 0 <= i < front.len() implies !ends_call(#[trigger] front[i], seq) by {
            assert(front[i] == events[i]);
        }
        lemma_call_stays_pending(v, seq, front);
        let before = run_spec(v, front);
        let event = events.last();
        assert(!ends_call(events[events.len() - 1], seq));
        lemma_event_keeps_inv(before, event);
        lemma_pending_is_listed(before, seq);
    }
}

/// Each caller receives the reply that carries its own sequence number,
/// whatever happens in between: once a call has been issued, whatever calls
/// are issued, answered, abandoned or written after it and in whatever
/// order, the first message with its sequence number is delivered into the
/// slot that the call was issued with.
pub proof fn lemma_reply_reaches_its_caller<S>(
    v: ClientView<S>,
    reply: S,
    events: Seq<Event<S>>,
    message: Inbound,
)
    requires
        inv(v),
        register_call_spec(v, reply).1 == Ok::<u64, CallError>(message.seq),
        forall|i: int| 0 <= i < events.len() ==> !ends_call(#[trigger] events[i], message.seq),
    ensures
        message_spec(run_spec(register_call_spec(v, reply).0, events), message).1
            == Resolution::Delivered(
            Delivery { seq: message.seq, slot: reply, outcome: Outcome::Reply(message) },
        ),
        !message_spec(
            run_spec(register_call_spec(v, reply).0, events),
            message,
        ).0.pending.contains_key(message.seq),
{
    lemma_register_call_keeps_inv(v, reply);
    lemma_call_stays_pending(register_call_spec(v, reply).0, message.seq, events);
}

/// No sequence number is issued twice on one connection: of two calls issued
/// on it, the later gets the greater number, whatever happens in between.
pub proof fn lemma_later_call_gets_greater_number<S>(
    v: ClientView<S>,
    first: S,
    events: Seq<Event<S>>,
    second: S,
)
    requires
        inv(v),
        register_call_spec(v, first).1 is Ok,
        forall|i: int| 0 <= i < events.len() ==> #[trigger] events[i] != Event::<S>::Start,
        register_call_spec(run_spec(register_call_spec(v, first).0, events), second).1 is Ok,
    ensures
        register_call_spec(v, first).1->Ok_0 < register_call_spec(
            run_spec(register_call_spec(v, first).0, events),
            second,
        ).1->Ok_0,
{
    lemma_register_call_keeps_inv(v, first);
    lemma_issued_never_falls(register_call_spec(v, first).0, events);
}

/// The count of calls issued never falls while the connection lasts.
pub proof fn lemma_issued_never_falls<S>(v: ClientView<S>, events: Seq<Event<S>>)
    requires
        forall|i: int| 0 <= i < events.len() ==> #[trigger] events[i] != Event::<S>::Start,
    ensures
        run_spec(v, events).issued >= v.issued,
    decreases events.len(),
{
    if events.len() > 0 {
        let front = events.drop_last();
        assert forall|i: int| 0 <= i < front.len() implies #[trigger] front[i]
            != Event::<S>::Start by {
            assert(front[i] == events[i]);
        }
        lemma_issued_never_falls(v, front);
        assert(events[events.len() - 1] != Event::<S>::Start);
    }
}

} // verus!
