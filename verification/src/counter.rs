//! The sequential counter: the alternate, non-persistent id mode.

use vstd::prelude::*;

verus! {

/// A process-local monotonic counter. It hands out `0, 1, 2, ...` in call
/// order, with no file backing: ids are unique only within one counter's
/// lifetime, and nothing is stable across runs. Each counter numbers
/// independently, so tests and callers can hold their own.
pub struct SequentialCounter {
    next: u64,
}

impl View for SequentialCounter {
    type V = u64;

    closed spec fn view(&self) -> u64 {
        self.next
    }
}

impl SequentialCounter {
    /// A fresh counter: no ids handed out yet.
    pub fn new() -> (c: SequentialCounter)
        ensures
            c@ == 0,
    {
        SequentialCounter { next: 0 }
    }

    /// How many ids have been handed out so far.
    pub fn count(&self) -> (n: u64)
        ensures
            n == self@,
    {
        self.next
    }

    /// Hands out the next id: exactly the number of calls made before this
    /// one, so a fresh counter yields `0, 1, 2, ...` and never repeats a
    /// value within its lifetime.
    pub fn next_id(&mut self) -> (id: u64)
        requires
            old(self)@ < u64::MAX,
        ensures
            id == old(self)@,
            final(self)@ == old(self)@ + 1,
    {
        let id = self.next;
        self.next = self.next + 1;
        id
    }
}

} // verus!
