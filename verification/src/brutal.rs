//! Fixed-rate congestion control: when a connection gives it up because its link does not bear it.

use vstd::prelude::*;

verus! {

/// How often a connection is looked at, in seconds.
pub const MONITOR_INTERVAL_SECS: u64 = 10;

/// How many segments a window must have sent to say anything.
pub const MIN_SEGS_PER_WINDOW: u32 = 500;

/// The share of retransmitted segments that is borne, in percent.
pub const RETRANS_THRESHOLD_PCT: u64 = 5;

/// How often a connection is looked at before it is left alone.
pub const MAX_MONITOR_CHECKS: usize = 18;

/// How many good windows are enough.
pub const STABLE_OK_CHECKS: usize = 6;

/// The gain of the congestion window, in tenths.
pub const CWND_GAIN_X10: u32 = 20;

/// What is known of a connection: its counters at the last look, the good windows, whether it has
/// been looked at, and how often.
#[derive(Clone, Copy, PartialEq, Eq, Structural, Debug)]
pub struct FallbackMonitor {
    pub prev_retrans: u32,
    pub prev_segs: u32,
    pub good: usize,
    pub first: bool,
    pub checks: usize,
}

/// What is done after a look at a connection.
#[derive(Clone, Copy, PartialEq, Eq, Structural, Debug)]
pub enum FallbackStep {
    /// Look again later.
    Watch,
    /// Give up the fixed rate.
    SwitchToBbr,
    /// Leave the connection alone.
    Leave,
}

/// How much a counter has grown; nothing where it has shrunk.
pub open spec fn grown(now: u32, before: u32) -> int {
    if now >= before {
        now - before
    } else {
        0
    }
}

/// A window in which too many segments were sent again.
pub open spec fn too_lossy(retrans: int, segs: int) -> bool {
    retrans * 100 > RETRANS_THRESHOLD_PCT * segs
}

/// What is done after a look at a connection, and what is known then.
pub open spec fn looked(m: FallbackMonitor, retrans: u32, segs: u32) -> (FallbackMonitor, FallbackStep) {
    let checks = (m.checks + 1) as usize;
    let dr = grown(retrans, m.prev_retrans);
    let ds = grown(segs, m.prev_segs);
    let seen = FallbackMonitor { prev_retrans: retrans, prev_segs: segs, good: m.good, first: false, checks };
    let go_on = if checks >= MAX_MONITOR_CHECKS {
        FallbackStep::Leave
    } else {
        FallbackStep::Watch
    };
    if m.first || ds < MIN_SEGS_PER_WINDOW {
        (seen, go_on)
    } else if too_lossy(dr, ds) {
        (seen, FallbackStep::SwitchToBbr)
    } else {
        let counted = FallbackMonitor { good: (m.good + 1) as usize, ..seen };
        if counted.good >= STABLE_OK_CHECKS {
            (counted, FallbackStep::Leave)
        } else {
            (counted, go_on)
        }
    }
}

impl FallbackMonitor {
    /// The counts are within their bounds.
    pub open spec fn wf(&self) -> bool {
        self.checks < MAX_MONITOR_CHECKS && self.good < STABLE_OK_CHECKS
    }

    /// Nothing known yet.
    pub fn new() -> (r: FallbackMonitor)
        ensures
            r.wf(),
            r == (FallbackMonitor { prev_retrans: 0, prev_segs: 0, good: 0, first: true, checks: 0 }),
    {
        FallbackMonitor { prev_retrans: 0, prev_segs: 0, good: 0, first: true, checks: 0 }
    }

    /// Takes in the counters of a connection: segments sent again, and segments sent.
    pub fn look(&mut self, retrans: u32, segs: u32) -> (r: FallbackStep)
        requires
            old(self).wf(),
        ensures
            (*final(self), r) == looked(*old(self), retrans, segs),
            r is Watch ==> final(self).wf(),
    {
        let dr: u32 = if retrans >= self.prev_retrans {
            retrans - self.prev_retrans
        } else {
            0
        };
        let ds: u32 = if segs >= self.prev_segs {
            segs - self.prev_segs
        } else {
            0
        };
        let was_first: bool = self.first;
        self.prev_retrans = retrans;
        self.prev_segs = segs;
        self.first = false;
        self.checks = self.checks + 1;
        if !was_first && ds >= MIN_SEGS_PER_WINDOW {
            if dr as u64 * 100 > RETRANS_THRESHOLD_PCT * ds as u64 {
                return FallbackStep::SwitchToBbr;
            }
            self.good = self.good + 1;
            if self.good >= STABLE_OK_CHECKS {
                return FallbackStep::Leave;
            }
        }
        if self.checks >= MAX_MONITOR_CHECKS {
            FallbackStep::Leave
        } else {
            FallbackStep::Watch
        }
    }
}

/// The fixed rate is never given up on the first look or on too little traffic.
pub proof fn law_no_hasty_switch(m: FallbackMonitor, retrans: u32, segs: u32)
    requires
        m.first || grown(segs, m.prev_segs) < MIN_SEGS_PER_WINDOW,
    ensures
        !(looked(m, retrans, segs).1 is SwitchToBbr),
{
}

/// A window says something where five hundred segments were sent in it, and it is not the first. Where
/// more than one in twenty of them was sent again, the fixed rate is given up at once; else the window
/// counts as good.
pub proof fn law_windows_judged(m: FallbackMonitor, retrans: u32, segs: u32)
    requires
        m.wf(),
        !m.first,
        m.prev_retrans <= retrans,
        m.prev_segs <= segs,
    ensures
        ({
            let x = looked(m, retrans, segs);
            let many = segs - m.prev_segs >= 500;
            let lossy = 20 * (retrans - m.prev_retrans) > segs - m.prev_segs;
            &&& x.1 is SwitchToBbr <==> many && lossy
            &&& x.0.good == m.good + if many && !lossy {
                1int
            } else {
                0
            }
        }),
{
}

/// Every look counts, and remembers the counters that it saw; a counter that has shrunk counts as one
/// that has not grown.
pub proof fn law_looks_counted(m: FallbackMonitor, retrans: u32, segs: u32)
    requires
        m.wf(),
    ensures
        ({
            let x = looked(m, retrans, segs);
            &&& x.0.checks == m.checks + 1
            &&& x.0.prev_retrans == retrans && x.0.prev_segs == segs && !x.0.first
            &&& m.first ==> x.0.good == m.good
            &&& !m.first && segs < m.prev_segs ==> x.0.good == m.good && !(x.1 is SwitchToBbr)
        }),
{
}

/// A connection is left alone with its sixth good window, and at the latest with its eighteenth look;
/// until then it is watched, unless the fixed rate is given up.
pub proof fn law_left_alone(m: FallbackMonitor, retrans: u32, segs: u32)
    requires
        m.wf(),
    ensures
        ({
            let x = looked(m, retrans, segs);
            &&& x.1 is Leave <==> !(x.1 is SwitchToBbr) && (x.0.checks >= 18 || x.0.good >= 6)
            &&& x.1 is Watch <==> !(x.1 is SwitchToBbr) && x.0.checks < 18 && x.0.good < 6
        }),
{
}

} // verus!
