//! Allocation of opaque integer handles.

use vstd::prelude::*;

verus! {

/// A monotonic counter that hands out handles for processes, pipes, remotes
/// and edits. Every handle is handed out at most once.
pub struct Ids {
    next_id: usize,
}

impl View for Ids {
    type V = nat;

    /// The handle that the next call of `next` returns.
    closed spec fn view(&self) -> nat {
        self.next_id as nat
    }
}

impl Ids {
    /// A fresh allocator, whose first handle is 0.
    pub fn new() -> (ids: Ids)
        ensures
            ids@ == 0,
    {
        Ids { next_id: 0 }
    }

    /// True when every handle of the machine's word size has been handed out.
    pub fn is_exhausted(&self) -> (done: bool)
        ensures
            done == (self@ >= usize::MAX),
    {
        self.next_id == usize::MAX
    }

    /// The number of handles that are left to hand out.
    pub fn left(&self) -> (left: usize)
        ensures
            left == usize::MAX - self@,
    {
        usize::MAX - self.next_id
    }

    /// Hands out the current handle and advances the counter by one.
    pub fn next(&mut self) -> (id: usize)
        requires
            old(self)@ < usize::MAX,
        ensures
            id == old(self)@,
            final(self)@ == old(self)@ + 1,
    {
        let res = self.next_id;
        self.next_id = self.next_id + 1;
        res
    }
}

} // verus!
