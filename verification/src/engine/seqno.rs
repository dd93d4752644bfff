//! The source of sequence numbers.
//!
//! Every write takes the next number. The numbers go up by one and start at
//! one, so that a larger number always belongs to a later write.

use vstd::prelude::*;

verus! {

/// The counter: it holds the last number that was issued, zero before the
/// first.
#[derive(Debug)]
pub struct SeqNo {
    last: u64,
}

impl View for SeqNo {
    type V = u64;

    closed spec fn view(&self) -> u64 {
        self.last
    }
}

impl SeqNo {
    /// A counter that has issued no number yet.
    pub fn new() -> (s: Self)
        ensures
            s@ == 0,
    {
        SeqNo { last: 0 }
    }
}

/// Issues the next number: one more than the last.
pub fn allocate(seq: &mut SeqNo) -> (n: u64)
    requires
        old(seq)@ < u64::MAX,
    ensures
        n == after_allocate(old(seq)@),
        n == old(seq)@ + 1,
        final(seq)@ == n,
{
    seq.last = seq.last + 1;
    seq.last
}

/// The last number that was issued, zero where none was.
pub fn current(seq: &SeqNo) -> (n: u64)
    ensures
        n == seq@,
{
    seq.last
}

/// Raises the counter to `min` where it is below it, and never lowers it.
/// Returns the counter's value after the call.
pub fn advance_to(seq: &mut SeqNo, min: u64) -> (n: u64)
    ensures
        final(seq)@ == after_advance(old(seq)@, min),
        n == final(seq)@,
{
    if seq.last < min {
        seq.last = min;
    }
    seq.last
}

/// The counter after a number was issued.
pub open spec fn after_allocate(counter: u64) -> u64 {
    (counter + 1) as u64
}

/// The counter after it was raised to `min`.
pub open spec fn after_advance(counter: u64, min: u64) -> u64 {
    if counter >= min {
        counter
    } else {
        min
    }
}

/// Numbers go up strictly: a number that is issued later is larger,
/// however the counter was raised in between. The counter is never lowered.
pub proof fn lemma_seqnos_increase(counter: u64, min: u64)
    requires
        counter < u64::MAX,
        after_advance(after_allocate(counter), min) < u64::MAX,
    ensures
        after_allocate(counter) > counter,
        after_advance(counter, min) >= counter,
        after_advance(counter, min) >= min,
        after_allocate(after_advance(after_allocate(counter), min)) > after_allocate(counter),
{
}

} // verus!
