//! The table of calls in flight: from sequence number to result slot.
//!
//! The table is generic in the slot. It never looks into one: it keeps the
//! slot while the call is pending and hands it back, together with what is to
//! be written into it, when the call ends.

use crate::error::DuplicateSequence;
use crate::message::{Delivery, Failure, Inbound, Outcome};
use vstd::prelude::*;

verus! {

struct Entry<S> {
    seq: u64,
    slot: S,
}

/// The pending calls of one connection, in the order in which they were
/// registered.
pub struct PendingTable<S> {
    entries: Vec<Entry<S>>,
}

/// What became of a message that was held against the table.
#[derive(Debug)]
pub enum Resolution<S> {
    /// The message answers a pending call, which has left the table.
    Delivered(Delivery<S>),
    /// No call with this sequence number is pending: the message is stale, a
    /// duplicate, or answers a call that this connection never issued.
    Unmatched(Inbound),
}

/// Registering `slot` under `seq` in the table `m`.
pub open spec fn register_spec<S>(m: Map<u64, S>, seq: u64, slot: S) -> (
    Map<u64, S>,
    Result<(), DuplicateSequence>,
) {
    if m.contains_key(seq) {
        (m, Err(DuplicateSequence { seq }))
    } else {
        (m.insert(seq, slot), Ok(()))
    }
}

/// Holding `message` against the table `m`.
pub open spec fn resolve_spec<S>(m: Map<u64, S>, message: Inbound) -> (Map<u64, S>, Resolution<S>) {
    if m.contains_key(message.seq) {
        (
            m.remove(message.seq),
            Resolution::Delivered(
                Delivery { seq: message.seq, slot: m[message.seq], outcome: Outcome::Reply(message) },
            ),
        )
    } else {
        (m, Resolution::Unmatched(message))
    }
}

/// The deliveries that end every call of the table `m`, whose calls were
/// registered in the order `order`, with `failure`.
pub open spec fn drain_spec<S>(m: Map<u64, S>, order: Seq<u64>, failure: Failure) -> Seq<
    Delivery<S>,
> {
    Seq::new(
        order.len(),
        |i: int| Delivery { seq: order[i], slot: m[order[i]], outcome: Outcome::Failed(failure) },
    )
}

/// Holding the messages `replies` against the table `m`, one after the other:
/// the table that is left, and what became of each message.
pub open spec fn replay_spec<S>(m: Map<u64, S>, replies: Seq<Inbound>) -> (
    Map<u64, S>,
    Seq<Resolution<S>>,
)
    decreases replies.len(),
{
    if replies.len() == 0 {
        (m, Seq::empty())
    } else {
        let before = replay_spec(m, replies.drop_last());
        let last = resolve_spec(before.0, replies.last());
        (last.0, before.1.push(last.1))
    }
}

impl<S> View for PendingTable<S> {
    type V = Map<u64, S>;

    /// The slot of each pending call, by sequence number.
    closed spec fn view(&self) -> Map<u64, S> {
        Map::new(
            |seq: u64| self.order().contains(seq),
            |seq: u64| self.entries@[self.order().index_of(seq)].slot,
        )
    }
}

impl<S> PendingTable<S> {
    /// The sequence numbers of the pending calls, oldest registration first.
    pub closed spec fn order(&self) -> Seq<u64> {
        Seq::new(self.entries@.len(), |i: int| self.entries@[i].seq)
    }

    /// No sequence number is pending twice.
    pub closed spec fn wf(&self) -> bool {
        self.order().no_duplicates()
    }

    /// In a well-formed table the order lists exactly the pending calls, each
    /// once.
    pub proof fn lemma_order_lists_the_calls(&self)
        requires
            self.wf(),
        ensures
            self.order().no_duplicates(),
            self.order().to_set() == self@.dom(),
            self@.dom().finite(),
            self@.dom().len() == self.order().len(),
    {
        assert(self.order().to_set() =~= self@.dom());
        self.order().unique_seq_to_set();
        vstd::seq_lib::seq_to_set_is_finite(self.order());
    }

    proof fn lemma_slot_at(&self, i: int)
        requires
            self.wf(),
            0 <= i < self.entries@.len(),
        ensures
            self@.contains_key(self.entries@[i].seq),
            self@[self.entries@[i].seq] == self.entries@[i].slot,
            self.order().index_of(self.entries@[i].seq) == i,
    {
        let seq = self.entries@[i].seq;
        assert(self.order()[i] == seq);
        let k = self.order().index_of(seq);
        assert(0 <= k < self.order().len() && self.order()[k] == seq);
    }

    /// An empty table.
    pub fn new() -> (t: PendingTable<S>)
        ensures
            t.wf(),
            t@ == Map::<u64, S>::empty(),
            t.order() == Seq::<u64>::empty(),
    {
        let t = PendingTable { entries: Vec::new() };
        assert(t@ =~= Map::<u64, S>::empty());
        assert(t.order() =~= Seq::<u64>::empty());
        t
    }

    /// The number of pending calls.
    pub fn len(&self) -> (n: usize)
        requires
            self.wf(),
        ensures
            n == self@.dom().len(),
            n == self.order().len(),
    {
        proof {
            self.lemma_order_lists_the_calls();
        }
        self.entries.len()
    }

    /// Whether no call is pending.
    pub fn is_empty(&self) -> (b: bool)
        requires
            self.wf(),
        ensures
            b == (self@ == Map::<u64, S>::empty()),
    {
        proof {
            self.lemma_order_lists_the_calls();
            if self.entries@.len() == 0 {
                assert(self@ =~= Map::<u64, S>::empty());
            } else {
                self.lemma_slot_at(0);
            }
        }
        self.entries.len() == 0
    }

    fn position(&self, seq: u64) -> (r: Option<usize>)
        requires
            self.wf(),
        ensures
            match r {
                Some(i) => i < self.entries@.len() && self.entries@[i as int].seq == seq
                    && self@.contains_key(seq),
                None => !self@.contains_key(seq),
            },
    {
        let mut i: usize = 0;
        while i < self.entries.len()
            invariant
                self.wf(),
                i <= self.entries@.len(),
                forall|j: int| 0 <= j < i ==> self.entries@[j].seq != seq,
            decreases self.entries@.len() - i,
        {
            if self.entries[i].seq == seq {
                proof {
                    self.lemma_slot_at(i as int);
                }
                return Some(i);
            }
            i += 1;
        }
        proof {
            if self.order().contains(seq) {
                let k = self.order().index_of(seq);
                assert(self.order()[k] == seq);
            }
        }
        None
    }

    /// Whether a call with this sequence number is pending.
    pub fn contains(&self, seq: u64) -> (b: bool)
        requires
            self.wf(),
        ensures
            b == self@.contains_key(seq),
    {
        self.position(seq).is_some()
    }

    /// Enters a call. Fails, and leaves the table as it was, if a call with
    /// the same sequence number is pending.
    pub fn register(&mut self, seq: u64, slot: S) -> (r: Result<(), DuplicateSequence>)
        requires
            old(self).wf(),
        ensures
            final(self).wf(),
            (final(self)@, r) == register_spec(old(self)@, seq, slot),
            final(self).order() == if old(self)@.contains_key(seq) {
                old(self).order()
            } else {
                old(self).order().push(seq)
            },
    {
        if self.position(seq).is_some() {
            return Err(DuplicateSequence { seq });
        }
        let ghost before = *self;
        self.entries.push(Entry { seq, slot });
        proof {
            assert(self.order() =~= before.order().push(seq));
            assert(!before.order().contains(seq));
            assert(self.order().no_duplicates());
            assert forall|k: u64| self@.contains_key(k) implies #[trigger] before@.insert(
                seq,
                slot,
            ).contains_key(k) by {
                let i = self.order().index_of(k);
                assert(self.order()[i] == k);
                if i < before.order().len() {
                    assert(before.order()[i] == k);
                }
            }
            assert forall|k: u64| #[trigger] before@.insert(seq, slot).contains_key(k) implies self@[k]
                == before@.insert(seq, slot)[k] && self@.contains_key(k) by {
                if k == seq {
                    self.lemma_slot_at(before.entries@.len() as int);
                } else {
                    let i = before.order().index_of(k);
                    assert(before.order()[i] == k);
                    before.lemma_slot_at(i);
                    self.lemma_slot_at(i);
                }
            }
            assert(self@ =~= before@.insert(seq, slot));
        }
        Ok(())
    }

    fn take_at(&mut self, i: usize) -> (e: Entry<S>)
        requires
            old(self).wf(),
            i < old(self).entries@.len(),
        ensures
            final(self).wf(),
            e == old(self).entries@[i as int],
            final(self)@ == old(self)@.remove(e.seq),
            final(self).order() == old(self).order().remove(old(self).order().index_of(e.seq)),
    {
        let ghost before = *self;
        let e = self.entries.remove(i);
        proof {
            before.lemma_slot_at(i as int);
            assert(self.order() =~= before.order().remove(i as int));
            assert forall|a: int, b: int|
                0 <= a < self.order().len() && 0 <= b < self.order().len() && a != b implies self.order()[a]
                != self.order()[b] by {
                let a0 = if a < i { a } else { a + 1 };
                let b0 = if b < i { b } else { b + 1 };
                assert(self.order()[a] == before.order()[a0]);
                assert(self.order()[b] == before.order()[b0]);
            }
            assert forall|k: u64| self@.contains_key(k) implies #[trigger] before@.remove(
                e.seq,
            ).contains_key(k) by {
                let a = self.order().index_of(k);
                assert(self.order()[a] == k);
                let a0 = if a < i { a } else { a + 1 };
                assert(before.order()[a0] == k);
            }
            assert forall|k: u64| #[trigger] before@.remove(e.seq).contains_key(k) implies self@[k]
                == before@.remove(e.seq)[k] && self@.contains_key(k) by {
                let a0 = before.order().index_of(k);
                assert(before.order()[a0] == k);
                before.lemma_slot_at(a0);
                let a = if a0 < i { a0 } else { a0 - 1 };
                assert(self.order()[a] == k);
                self.lemma_slot_at(a);
            }
            assert(self@ =~= before@.remove(e.seq));
        }
        e
    }

    /// Holds a message against the table. If a call with its sequence number
    /// is pending, the call leaves the table and the message is to be
    /// delivered into its slot. If not, the table stays as it is and the
    /// message comes back unmatched.
    pub fn resolve(&mut self, message: Inbound) -> (r: Resolution<S>)
        requires
            old(self).wf(),
        ensures
            final(self).wf(),
            (final(self)@, r) == resolve_spec(old(self)@, message),
            final(self).order() == if old(self)@.contains_key(message.seq) {
                old(self).order().remove(old(self).order().index_of(message.seq))
            } else {
                old(self).order()
            },
    {
        match self.position(message.seq) {
            Some(i) => {
                proof {
                    self.lemma_slot_at(i as int);
                }
                let e = self.take_at(i);
                Resolution::Delivered(
                    Delivery { seq: e.seq, slot: e.slot, outcome: Outcome::Reply(message) },
                )
            },
            None => Resolution::Unmatched(message),
        }
    }

    /// Takes a call out of the table without an outcome, as a caller does who
    /// has given up waiting. Returns its slot, or `None` if no such call is
    /// pending.
    pub fn cancel(&mut self, seq: u64) -> (r: Option<S>)
        requires
            old(self).wf(),
        ensures
            final(self).wf(),
            final(self)@ == old(self)@.remove(seq),
            r == if old(self)@.contains_key(seq) {
                Some(old(self)@[seq])
            } else {
                None
            },
            final(self).order() == if old(self)@.contains_key(seq) {
                old(self).order().remove(old(self).order().index_of(seq))
            } else {
                old(self).order()
            },
    {
        match self.position(seq) {
            Some(i) => {
                proof {
                    self.lemma_slot_at(i as int);
                }
                let e = self.take_at(i);
                Some(e.slot)
            },
            None => {
                assert(self@.remove(seq) =~= self@);
                None
            },
        }
    }

    /// Empties the table: every pending call ends with `failure`. The
    /// deliveries come in the order in which the calls were registered.
    pub fn drain_all(&mut self, failure: Failure) -> (r: Vec<Delivery<S>>)
        requires
            old(self).wf(),
        ensures
            final(self).wf(),
            final(self)@ == Map::<u64, S>::empty(),
            final(self).order() == Seq::<u64>::empty(),
            r@ == drain_spec(old(self)@, old(self).order(), failure),
    {
        let ghost before = *self;
        let mut taken: Vec<Entry<S>> = Vec::new();
        core::mem::swap(&mut self.entries, &mut taken);
        proof {
            assert(self.order() =~= Seq::<u64>::empty());
            assert(self@ =~= Map::<u64, S>::empty());
        }
        let mut out: Vec<Delivery<S>> = Vec::new();
        for e in iter: taken
            invariant
                before.wf(),
                iter.seq() == before.entries@,
                out@.len() == iter.index(),
                forall|j: int|
                    0 <= j < out@.len() ==> out@[j] == (Delivery {
                        seq: before.entries@[j].seq,
                        slot: before.entries@[j].slot,
                        outcome: Outcome::Failed(failure),
                    }),
        {
            out.push(Delivery { seq: e.seq, slot: e.slot, outcome: Outcome::Failed(failure) });
        }
        proof {
            assert forall|j: int| 0 <= j < out@.len() implies out@[j] == drain_spec(
                before@,
                before.order(),
                failure,
            )[j] by {
                before.lemma_slot_at(j);
            }
            assert(out@ =~= drain_spec(before@, before.order(), failure));
        }
        out
    }
}

/// The sequence numbers that the messages `replies` carry.
pub open spec fn seqs_of(replies: Seq<Inbound>) -> Set<u64> {
    Set::new(|seq: u64| exists|j: int| 0 <= j < replies.len() && #[trigger] replies[j].seq == seq)
}

/// There is one resolution for each message, and what is left of the table
/// are the calls that none of the messages answered.
pub proof fn lemma_replay_table<S>(m: Map<u64, S>, replies: Seq<Inbound>)
    ensures
        replay_spec(m, replies).1.len() == replies.len(),
        replay_spec(m, replies).0 == m.remove_keys(seqs_of(replies)),
    decreases replies.len(),
{
    if replies.len() == 0 {
        assert(m.remove_keys(seqs_of(replies)) =~= m);
    } else {
        let front = replies.drop_last();
        lemma_replay_table(m, front);
        let last = replies.last();
        assert forall|seq: u64| seqs_of(replies).contains(seq) <==> (seqs_of(front).contains(seq)
            || seq == last.seq) by {
            if seqs_of(replies).contains(seq) {
                let j = choose|j: int| 0 <= j < replies.len() && #[trigger] replies[j].seq == seq;
                if j < front.len() {
                    assert(front[j].seq == seq);
                }
            }
            if seqs_of(front).contains(seq) {
                let j = choose|j: int| 0 <= j < front.len() && #[trigger] front[j].seq == seq;
                assert(replies[j].seq == seq);
            }
            if seq == last.seq {
                assert(replies[replies.len() - 1].seq == seq);
            }
        }
        assert(replay_spec(m, replies).0 =~= m.remove_keys(seqs_of(replies)));
    }
}

/// What becomes of the `i`-th message depends only on the messages before it.
pub proof fn lemma_replay_prefix<S>(m: Map<u64, S>, replies: Seq<Inbound>, i: int)
    requires
        0 <= i < replies.len(),
    ensures
        replay_spec(m, replies).1.len() == replies.len(),
        replay_spec(m, replies).1[i] == resolve_spec(
            replay_spec(m, replies.take(i)).0,
            replies[i],
        ).1,
    decreases replies.len(),
{
    lemma_replay_table(m, replies);
    let front = replies.drop_last();
    lemma_replay_table(m, front);
    if i == replies.len() - 1 {
        assert(replies.take(i) =~= front);
    } else {
        lemma_replay_prefix(m, front, i);
        assert(front.take(i) =~= replies.take(i));
    }
}

/// Each caller receives the reply that carries its own sequence number,
/// whatever the order in which the replies arrive: the first message with the
/// sequence number of a pending call is delivered into the slot that was
/// registered under that number, whatever came before it.
pub proof fn lemma_reply_finds_its_slot<S>(m: Map<u64, S>, replies: Seq<Inbound>, i: int)
    requires
        0 <= i < replies.len(),
        m.contains_key(replies[i].seq),
        forall|j: int| 0 <= j < i ==> replies[j].seq != replies[i].seq,
    ensures
        replay_spec(m, replies).1.len() == replies.len(),
        replay_spec(m, replies).1[i] == Resolution::Delivered(
            Delivery {
                seq: replies[i].seq,
                slot: m[replies[i].seq],
                outcome: Outcome::Reply(replies[i]),
            },
        ),
{
    lemma_replay_prefix(m, replies, i);
    lemma_replay_table(m, replies.take(i));
    assert(!seqs_of(replies.take(i)).contains(replies[i].seq)) by {
        if seqs_of(replies.take(i)).contains(replies[i].seq) {
            let j = choose|j: int|
                0 <= j < replies.take(i).len() && #[trigger] replies.take(i)[j].seq == replies[i].seq;
            assert(replies[j].seq == replies[i].seq);
        }
    }
}

/// When one reply has arrived for every pending call, in any order, the table
/// is empty.
pub proof fn lemma_all_replies_empty_the_table<S>(m: Map<u64, S>, replies: Seq<Inbound>)
    requires
        forall|seq: u64| m.contains_key(seq) ==> seqs_of(replies).contains(seq),
    ensures
        replay_spec(m, replies).0 == Map::<u64, S>::empty(),
{
    lemma_replay_table(m, replies);
    assert(m.remove_keys(seqs_of(replies)) =~= Map::<u64, S>::empty());
}

/// A message whose sequence number is not pending is dropped, and every other
/// message fares as if it had never arrived, wherever among them it comes.
pub proof fn lemma_stray_reply_is_dropped<S>(
    m: Map<u64, S>,
    replies: Seq<Inbound>,
    k: int,
    stray: Inbound,
)
    requires
        0 <= k <= replies.len(),
        !m.contains_key(stray.seq),
    ensures
        replay_spec(m, replies.insert(k, stray)).0 == replay_spec(m, replies).0,
        replay_spec(m, replies.insert(k, stray)).1 == replay_spec(m, replies).1.insert(
            k,
            Resolution::Unmatched(stray),
        ),
    decreases replies.len() - k,
{
    let with = replies.insert(k, stray);
    lemma_replay_table(m, replies);
    if k == replies.len() {
        assert(with.drop_last() =~= replies);
        assert(with.last() == stray);
        assert(replay_spec(m, with).1 =~= replay_spec(m, replies).1.insert(
            k,
            Resolution::Unmatched(stray),
        ));
    } else {
        let front = replies.drop_last();
        assert(with.drop_last() =~= front.insert(k, stray));
        assert(with.last() == replies.last());
        lemma_stray_reply_is_dropped(m, front, k, stray);
        lemma_replay_table(m, front);
        assert(replay_spec(m, with).1 =~= replay_spec(m, replies).1.insert(
            k,
            Resolution::Unmatched(stray),
        ));
    }
}

} // verus!
