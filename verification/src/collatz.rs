//! The Collatz sequence from a starting value, walked step by step.

use vstd::prelude::*;

verus! {

/// One step of the Collatz rule: halve an even value, triple and add one
/// to an odd one.
pub open spec fn collatz_next(c: u64) -> int {
    if c % 2 == 0 {
        c as int / 2
    } else {
        3 * (c as int) + 1
    }
}

/// Walks the Collatz sequence from a start value; the walk reports
/// values until it arrives at the end marker, one.
#[derive(Debug)]
pub struct Collatz {
    pub current: u64,
    pub end: u64,
}

impl Collatz {
    pub fn new(start: u64) -> (r: Collatz)
        ensures
            r.current == start,
            r.end == 1,
    {
        Collatz { current: start, end: 1 }
    }

    /// Advance one step: the new value, or `None` once the sequence has
    /// reached the end marker.
    pub fn next(&mut self) -> (r: Option<u64>)
        requires
            old(self).current % 2 != 0 ==> old(self).current <= (u64::MAX - 1) / 3,
        ensures
            final(self).end == old(self).end,
            final(self).current == collatz_next(old(self).current),
            r == (if final(self).current == final(self).end {
                None::<u64>
            } else {
                Some(final(self).current)
            }),
    {
        if self.current % 2 == 0 {
            self.current = self.current / 2;
        } else {
            self.current = 3 * self.current + 1;
        }
        if self.current == self.end {
            None
        } else {
            Some(self.current)
        }
    }
}

} // verus!
