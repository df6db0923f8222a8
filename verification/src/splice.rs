//! Relaying between two sockets through a pipe: what is in the pipe, and what has been passed on.

use vstd::prelude::*;

verus! {

/// The size of the pipe.
pub const PIPE_SIZE: usize = 262_144;

/// One direction of a relay: the bytes in the pipe and the bytes passed on.
#[derive(Clone, Copy, PartialEq, Eq, Structural, Debug)]
pub struct Splice {
    pub in_pipe: usize,
    pub total: u64,
}

/// What is done next.
#[derive(Clone, Copy, PartialEq, Eq, Structural, Debug)]
pub enum SpliceStep {
    /// Move bytes from the source into the pipe.
    Fill,
    /// Move up to so many bytes from the pipe to the destination.
    Drain(usize),
    /// Tell the destination that nothing more comes; the direction is over.
    Finish,
    /// The destination takes nothing; the direction has failed.
    WriteZero,
}

impl Splice {
    /// An empty pipe.
    pub fn new() -> (r: Splice)
        ensures
            r == (Splice { in_pipe: 0, total: 0 }),
    {
        Splice { in_pipe: 0, total: 0 }
    }

    /// What is done next.
    pub fn next(&self) -> (r: SpliceStep)
        ensures
            r == if self.in_pipe == 0 {
                SpliceStep::Fill
            } else {
                SpliceStep::Drain(self.in_pipe)
            },
    {
        if self.in_pipe == 0 {
            SpliceStep::Fill
        } else {
            SpliceStep::Drain(self.in_pipe)
        }
    }

    /// Notes that bytes were moved into the pipe; none is the end of the source.
    pub fn filled(&mut self, n: usize) -> (r: SpliceStep)
        requires
            old(self).in_pipe == 0,
        ensures
            final(self).in_pipe == n,
            final(self).total == old(self).total,
            r == if n == 0 {
                SpliceStep::Finish
            } else {
                SpliceStep::Drain(n)
            },
    {
        self.in_pipe = n;
        if n == 0 {
            SpliceStep::Finish
        } else {
            SpliceStep::Drain(n)
        }
    }

    /// Notes that bytes were moved from the pipe to the destination.
    pub fn drained(&mut self, m: usize) -> (r: SpliceStep)
        requires
            m <= old(self).in_pipe,
            old(self).total + m <= u64::MAX,
        ensures
            final(self).in_pipe + m == old(self).in_pipe,
            final(self).total == old(self).total + m,
            r == if m == 0 {
                SpliceStep::WriteZero
            } else if final(self).in_pipe == 0 {
                SpliceStep::Fill
            } else {
                SpliceStep::Drain(final(self).in_pipe)
            },
    {
        if m == 0 {
            return SpliceStep::WriteZero;
        }
        self.in_pipe = self.in_pipe - m;
        self.total = self.total + m as u64;
        self.next()
    }
}

/// The bytes that moves into and out of the pipe leave in it, and those they passed on.
pub open spec fn moved(s: Splice, fills: Seq<usize>, drains: Seq<usize>) -> bool {
    sum(fills) == s.in_pipe + s.total && sum(drains) == s.total
}

/// The sum of numbers.
pub open spec fn sum(v: Seq<usize>) -> int
    decreases v.len(),
{
    if v.len() == 0 {
        0
    } else {
        sum(v.drop_last()) + v.last()
    }
}

/// Nothing is lost and nothing is made up: at any time what was taken from the source is what has been
/// passed on and what is still in the pipe. Filling the pipe keeps that.
pub proof fn law_fill_conserves(a: Splice, b: Splice, fills: Seq<usize>, drains: Seq<usize>, n: usize)
    requires
        moved(a, fills, drains),
        a.in_pipe == 0,
        b == (Splice { in_pipe: n, ..a }),
    ensures
        moved(b, fills.push(n), drains),
{
    assert(fills.push(n).drop_last() =~= fills);
}

/// Draining the pipe keeps the balance of what was taken and what has been passed on.
pub proof fn law_drain_conserves(a: Splice, b: Splice, fills: Seq<usize>, drains: Seq<usize>, m: usize)
    requires
        moved(a, fills, drains),
        m <= a.in_pipe,
        a.total + m <= u64::MAX,
        b == (Splice { in_pipe: (a.in_pipe - m) as usize, total: (a.total + m) as u64 }),
    ensures
        moved(b, fills, drains.push(m)),
{
    assert(drains.push(m).drop_last() =~= drains);
}

} // verus!
