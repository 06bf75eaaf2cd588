//! Sequence numbers: one per call, starting at 1 and strictly increasing.

use vstd::prelude::*;

verus! {

/// Hands out the sequence numbers of one connection.
///
/// Exclusive access (`&mut self`) is what makes each number unique: a program
/// with several caller threads keeps the generator behind a lock.
#[derive(Debug)]
pub struct SequenceGenerator {
    last: u64,
}

/// What one call of [`SequenceGenerator::next`] does to a generator that has
/// issued `issued` numbers: the number of values issued afterwards, and the
/// value handed out, if any is left.
pub open spec fn next_spec(issued: nat) -> (nat, Option<u64>) {
    if issued < u64::MAX {
        ((issued + 1) as nat, Some((issued + 1) as u64))
    } else {
        (issued, None)
    }
}

/// The results of `count` successive calls of [`SequenceGenerator::next`] on a
/// generator that has issued `issued` numbers.
pub open spec fn run_spec(issued: nat, count: nat) -> Seq<Option<u64>>
    decreases count,
{
    if count == 0 {
        Seq::empty()
    } else {
        seq![next_spec(issued).1] + run_spec(next_spec(issued).0, (count - 1) as nat)
    }
}

impl View for SequenceGenerator {
    type V = nat;

    /// The number of values issued so far, which is also the last value issued.
    closed spec fn view(&self) -> nat {
        self.last as nat
    }
}

impl SequenceGenerator {
    /// A generator that has issued nothing yet; its first value will be 1.
    pub fn new() -> (g: SequenceGenerator)
        ensures
            g@ == 0,
    {
        SequenceGenerator { last: 0 }
    }

    /// A generator that goes on after `last`: its first value will be
    /// `last + 1`, if there is one.
    pub fn starting_after(last: u64) -> (g: SequenceGenerator)
        ensures
            g@ == last,
    {
        SequenceGenerator { last }
    }

    /// The next sequence number: one more than the last, or `None` once every
    /// value of the 64-bit range has been used.
    pub fn next(&mut self) -> (r: Option<u64>)
        ensures
            (final(self)@, r) == next_spec(old(self)@),
    {
        if self.last == u64::MAX {
            None
        } else {
            self.last = self.last + 1;
            Some(self.last)
        }
    }

    /// The last value issued, 0 before the first.
    pub fn last_issued(&self) -> (n: u64)
        ensures
            n == self@,
    {
        self.last
    }

    /// Whether every value has been used.
    pub fn is_exhausted(&self) -> (b: bool)
        ensures
            b == (self@ == u64::MAX),
    {
        self.last == u64::MAX
    }

    /// Every generator has issued at most `u64::MAX` values.
    pub proof fn lemma_view_bound(&self)
        ensures
            self@ <= u64::MAX,
    {
    }
}

/// The `i`-th of `count` successive calls returns `issued + i + 1`, as long as
/// the range is not used up.
pub proof fn lemma_run_values(issued: nat, count: nat, i: int)
    requires
        issued + count <= u64::MAX,
        0 <= i < count,
    ensures
        run_spec(issued, count).len() == count,
        run_spec(issued, count)[i] == Some((issued + i + 1) as u64),
    decreases count,
{
    lemma_run_len(issued, count);
    if i > 0 {
        lemma_run_values(issued + 1, (count - 1) as nat, i - 1);
    }
}

/// `count` calls give `count` results.
pub proof fn lemma_run_len(issued: nat, count: nat)
    ensures
        run_spec(issued, count).len() == count,
    decreases count,
{
    if count > 0 {
        lemma_run_len(next_spec(issued).0, (count - 1) as nat);
    }
}

/// No sequence number is issued twice, and each is greater than all before
/// it: of `count` successive calls on any generator, a later one returns a
/// strictly greater value than an earlier one.
pub proof fn lemma_values_strictly_increase(issued: nat, count: nat, i: int, j: int)
    requires
        issued + count <= u64::MAX,
        0 <= i < j < count,
    ensures
        run_spec(issued, count)[i] is Some,
        run_spec(issued, count)[j] is Some,
        run_spec(issued, count)[i]->0 < run_spec(issued, count)[j]->0,
{
    lemma_run_values(issued, count, i);
    lemma_run_values(issued, count, j);
}

/// On a fresh generator, `count` calls issue exactly the values `1 ..= count`,
/// each once and in this order.
pub proof fn lemma_fresh_run_is_one_to_count(count: nat)
    requires
        count <= u64::MAX,
    ensures
        run_spec(0, count) =~= Seq::new(count, |i: int| Some((i + 1) as u64)),
        run_spec(0, count).no_duplicates(),
{
    lemma_run_len(0, count);
    assert forall|i: int| 0 <= i < count implies run_spec(0, count)[i] == Some((i + 1) as u64) by {
        lemma_run_values(0, count, i);
    }
    assert forall|i: int, j: int|
        0 <= i < count && 0 <= j < count && i != j implies run_spec(0, count)[i] != run_spec(
        0,
        count,
    )[j] by {
        lemma_run_values(0, count, i);
        lemma_run_values(0, count, j);
    }
}

/// Once the range is used up the generator stays as it is and issues nothing.
pub proof fn lemma_exhausted_stays(count: nat, i: int)
    requires
        0 <= i < count,
    ensures
        run_spec(u64::MAX as nat, count)[i] is None,
    decreases count,
{
    lemma_run_len(u64::MAX as nat, count);
    if i > 0 {
        lemma_exhausted_stays((count - 1) as nat, i - 1);
    }
}

} // verus!
