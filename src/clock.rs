use vstd::prelude::*;

verus! {

/// A frame counter that only ever grows; used to slow some materials down.
pub struct TickClock {
    pub count: u64,
}

impl TickClock {
    pub fn new() -> (r: TickClock)
        ensures
            r.count == 0,
    {
        TickClock { count: 0 }
    }

    pub fn ticks(&self) -> (r: u64)
        ensures
            r == self.count,
    {
        self.count
    }

    /// Moves the clock on by one frame; at the largest value it stays there.
    pub fn advance(&mut self)
        ensures
            final(self).count == if old(self).count < u64::MAX {
                old(self).count + 1
            } else {
                old(self).count as int
            },
    {
        self.count = self.count.saturating_add(1);
    }
}

} // verus!
