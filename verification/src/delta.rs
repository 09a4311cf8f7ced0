//! Signed delta arithmetic: a tagged signed change to an unsigned counter,
//! used by the edit paths of the pure layer to shift child offsets and
//! cumulative text lengths.

use vstd::prelude::*;

verus! {

/// A signed change to an unsigned counter: add `k` or subtract `k`.
#[derive(Clone, Copy)]
pub enum Delta {
    Add(usize),
    Sub(usize),
}

impl Delta {
    /// The change as a mathematical integer.
    pub open spec fn amount(self) -> int {
        match self {
            Delta::Add(k) => k as int,
            Delta::Sub(k) => -(k as int),
        }
    }

    /// The change that carries `old_len` to `new_len`.
    pub fn new(old_len: usize, new_len: usize) -> (r: Delta)
        ensures
            r.amount() == new_len - old_len,
    {
        if new_len > old_len {
            Delta::Add(new_len - old_len)
        } else {
            Delta::Sub(old_len - new_len)
        }
    }

    /// Applies the change to a counter.  The caller guarantees that the
    /// result does not underflow or overflow.
    pub fn apply(self, x: usize) -> (r: usize)
        requires
            0 <= x + self.amount() <= usize::MAX,
        ensures
            r == x + self.amount(),
    {
        match self {
            Delta::Add(k) => x + k,
            Delta::Sub(k) => x - k,
        }
    }
}

} // verus!
