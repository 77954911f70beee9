use vstd::prelude::*;

verus! {

/// A monotonically increasing identifier source.
///
/// Every menu, node and dedicated context-menu surface draws its identifier
/// from one counter, so identifiers are unique for the counter's lifetime:
/// `next` returns the current value and then moves strictly upwards, so no
/// value is ever handed out twice.  Wraparound is out of scope: `next`
/// requires that the counter has room left.
///
/// The single-counter discipline is the caller's: keep one counter per
/// process (behind a lock where construction happens off the UI thread) and
/// draw every identifier from it.  Identifiers drawn from two independently
/// created counters may collide.
pub struct Counter {
    value: u32,
}

impl Counter {
    /// The next identifier this counter will hand out.
    pub closed spec fn spec_value(&self) -> u32 {
        self.value
    }

    pub fn new() -> (r: Counter)
        ensures
            r.spec_value() == 1u32,
    {
        Counter { value: 1 }
    }

    /// Hands out the current value and moves past it, never to return it again.
    pub fn next(&mut self) -> (r: u32)
        requires
            old(self).spec_value() < u32::MAX,
        ensures
            r == old(self).spec_value(),
            final(self).spec_value() == old(self).spec_value() + 1,
    {
        let r = self.value;
        self.value = self.value + 1;
        r
    }
}

/// Where a structural insertion lands in a composite's child list.
#[derive(Clone, Copy, PartialEq, Eq, Structural, Debug)]
pub enum AddOp {
    /// After the last current child.
    Append,
    /// At the given position; existing children shift right.
    Insert(usize),
}

} // verus!
