//! The connections to the camouflage site that are kept ready, and the ways in which a client that
//! does not authenticate is shown the site.

use std::collections::VecDeque;
use vstd::prelude::*;

verus! {

/// How many connections are kept ready.
pub const POOL_TARGET_SIZE: usize = 8;

/// How often the connections are looked after, in milliseconds.
pub const REFILL_INTERVAL_MS: u64 = 500;

/// How long connecting may take, in seconds.
pub const CONNECT_TIMEOUT_SECS: u64 = 3;

/// How old a connection may become, in milliseconds.
pub const STREAM_MAX_AGE_MS: u64 = 25_000;

/// The longest round trip time that is believed, in microseconds.
pub const RTT_MAX_US: u64 = 1_000_000;

/// A connection that is kept ready: its number and the time at which it was made.
#[derive(Clone, Copy, PartialEq, Eq, Structural, Debug)]
pub struct Pooled {
    pub id: u64,
    pub created_ms: u64,
}

/// The connections that are kept ready, and the round trip time to the site.
pub struct CamouflagePool {
    pub host: String,
    pub pool: VecDeque<Pooled>,
    pub rtt_us: u64,
}

/// A connection is kept: it is young enough and still open.
pub open spec fn kept(p: Pooled, now_ms: u64, alive: bool) -> bool {
    alive && now_ms - p.created_ms < STREAM_MAX_AGE_MS
}

/// The connections that are kept; `alive` says of each whether it is still open.
pub open spec fn survivors(q: Seq<Pooled>, alive: Seq<bool>, now_ms: u64) -> Seq<Pooled>
    decreases q.len(),
{
    if q.len() == 0 {
        seq![]
    } else {
        let s = survivors(q.drop_last(), alive, now_ms);
        if kept(q.last(), now_ms, alive[q.len() - 1]) {
            s.push(q.last())
        } else {
            s
        }
    }
}

/// How many connections at the front are closed.
pub open spec fn dead_front(alive: Seq<bool>) -> int
    decreases alive.len(),
{
    if alive.len() == 0 || alive[0] {
        0
    } else {
        1 + dead_front(alive.drop_first())
    }
}

/// The round trip time after another measurement: the first one as it is, later ones by an eighth.
pub open spec fn smoothed(prev: u64, sample: u64) -> int {
    let s = if sample > RTT_MAX_US {
        RTT_MAX_US
    } else {
        sample
    };
    if prev == 0 {
        s as int
    } else {
        (prev * 7 + s) / 8
    }
}

impl CamouflagePool {
    /// No more connections than are wanted, and a round trip time that is believed.
    pub open spec fn wf(&self) -> bool {
        self.pool@.len() <= POOL_TARGET_SIZE && self.rtt_us <= RTT_MAX_US
    }

    /// No connections.
    pub fn new(host: String) -> (r: CamouflagePool)
        ensures
            r.wf(),
            r.host == host,
            r.pool@.len() == 0,
            r.rtt_us == 0,
    {
        CamouflagePool { host, pool: VecDeque::new(), rtt_us: 0 }
    }

    /// The round trip time to the site; zero while it is unknown.
    pub fn rtt_us(&self) -> (r: u64)
        ensures
            r == self.rtt_us,
    {
        self.rtt_us
    }

    /// Takes the first connection that is still open; those before it are thrown away. `alive` says
    /// of each connection whether it is still open.
    pub fn acquire(&mut self, alive: &Vec<bool>) -> (r: Option<u64>)
        requires
            old(self).wf(),
            alive@.len() == old(self).pool@.len(),
        ensures
            final(self).wf(),
            final(self).rtt_us == old(self).rtt_us,
            final(self).host == old(self).host,
            ({
                let d = dead_front(alive@);
                if d < old(self).pool@.len() {
                    r == Some(old(self).pool@[d].id) && final(self).pool@ == old(self).pool@.skip(d + 1)
                } else {
                    r is None && final(self).pool@.len() == 0
                }
            }),
    {
        let mut i: usize = 0;
        let n: usize = alive.len();
        let ghost all = self.pool@;
        assert(alive@.skip(0) =~= alive@);
        assert(all.skip(0) =~= all);
        while i < n
            invariant
                i <= n,
                n == alive@.len(),
                n == all.len(),
                n <= POOL_TARGET_SIZE,
                self.pool@ == all.skip(i as int),
                self.rtt_us == old(self).rtt_us,
                self.rtt_us <= RTT_MAX_US,
                self.host == old(self).host,
                all == old(self).pool@,
                dead_front(alive@) == i + dead_front(alive@.skip(i as int)),
            decreases n - i,
        {
            let p: Option<Pooled> = self.pool.pop_front();
            assert(self.pool@ =~= all.skip(i + 1));
            assert(alive@.skip(i as int).drop_first() =~= alive@.skip(i + 1));
            if alive[i] {
                return match p {
                    Some(x) => Some(x.id),
                    None => None,
                };
            }
            i = i + 1;
        }
        None
    }

    /// Throws away the connections that are too old or closed.
    pub fn purge(&mut self, alive: &Vec<bool>, now_ms: u64)
        requires
            old(self).wf(),
            alive@.len() == old(self).pool@.len(),
        ensures
            final(self).wf(),
            final(self).rtt_us == old(self).rtt_us,
            final(self).host == old(self).host,
            final(self).pool@ == survivors(old(self).pool@, alive@, now_ms),
    {
        let n: usize = self.pool.len();
        let ghost all = self.pool@;
        let mut keep: VecDeque<Pooled> = VecDeque::new();
        let mut i: usize = 0;
        assert(all.take(0) =~= seq![]);
        assert(keep@ =~= seq![]);
        while i < n
            invariant
                i <= n,
                n == all.len(),
                all == self.pool@,
                alive@.len() == n,
                keep@.len() <= i,
                keep@ == survivors(all.take(i as int), alive@, now_ms),
            decreases n - i,
        {
            let p: Pooled = self.pool[i];
            proof {
                assert(all.take(i + 1).drop_last() =~= all.take(i as int));
                assert(all.take(i + 1).last() == p);
            }
            let young: bool = now_ms < p.created_ms || now_ms - p.created_ms < STREAM_MAX_AGE_MS;
            if young && alive[i] {
                keep.push_back(p);
            }
            i = i + 1;
        }
        assert(all.take(i as int) =~= all);
        self.pool = keep;
    }

    /// Whether another connection is wanted.
    pub fn wants_more(&self) -> (r: bool)
        ensures
            r == (self.pool@.len() < POOL_TARGET_SIZE),
    {
        self.pool.len() < POOL_TARGET_SIZE
    }

    /// Takes in a connection that was made, and how long that took.
    pub fn connected(&mut self, id: u64, took_us: u64, now_ms: u64)
        requires
            old(self).wf(),
            old(self).pool@.len() < POOL_TARGET_SIZE,
        ensures
            final(self).wf(),
            final(self).host == old(self).host,
            final(self).rtt_us == smoothed(old(self).rtt_us, took_us),
            final(self).pool@ == old(self).pool@.push(Pooled { id, created_ms: now_ms }),
    {
        let s: u64 = if took_us > RTT_MAX_US {
            RTT_MAX_US
        } else {
            took_us
        };
        self.rtt_us = if self.rtt_us == 0 {
            s
        } else {
            (self.rtt_us * 7 + s) / 8
        };
        self.pool.push_back(Pooled { id, created_ms: now_ms });
    }
}

/// The round trip time stays between the old one and the new measurement.
pub proof fn law_smoothing_between(prev: u64, sample: u64)
    requires
        0 < prev <= RTT_MAX_US,
        sample <= RTT_MAX_US,
    ensures
        prev <= sample ==> prev <= smoothed(prev, sample) <= sample,
        sample <= prev ==> sample <= smoothed(prev, sample) <= prev,
{
}

/// The ways in which a client is shown the site, in the order in which they are tried.
#[derive(Clone, Copy, PartialEq, Eq, Structural, Debug)]
pub enum Showing {
    /// Over a connection that was kept ready.
    Ready,
    /// Over a new connection.
    Connect,
    /// With a recorded answer.
    Template,
    /// It has been shown.
    Done,
}

/// What is tried after a way has been tried.
pub open spec fn showing_after(s: Showing, worked: bool) -> Showing {
    if worked {
        Showing::Done
    } else {
        match s {
            Showing::Ready => Showing::Connect,
            Showing::Connect => Showing::Template,
            _ => Showing::Done,
        }
    }
}

/// What is tried after a way has been tried: nothing more where it worked, else the next way.
pub fn next_showing(s: Showing, worked: bool) -> (r: Showing)
    ensures
        r == showing_after(s, worked),
{
    if worked {
        return Showing::Done;
    }
    match s {
        Showing::Ready => Showing::Connect,
        Showing::Connect => Showing::Template,
        _ => Showing::Done,
    }
}

/// A connection is thrown away exactly where it is closed or twenty-five seconds old; those that stay keep
/// their order.
pub proof fn law_purge_by_age(q: Seq<Pooled>, alive: Seq<bool>, p: Pooled, a: bool, now_ms: u64)
    requires
        q.len() == alive.len(),
    ensures
        survivors(q.push(p), alive.push(a), now_ms) == if a && now_ms < p.created_ms + 25000 {
            survivors(q, alive, now_ms).push(p)
        } else {
            survivors(q, alive, now_ms)
        },
        survivors(seq![], seq![], now_ms) == Seq::<Pooled>::empty(),
{
    assert(q.push(p).drop_last() =~= q);
    lemma_survivors_prefix(q, alive, alive.push(a), now_ms);
}

proof fn lemma_survivors_prefix(q: Seq<Pooled>, a: Seq<bool>, b: Seq<bool>, now_ms: u64)
    requires
        q.len() <= a.len(),
        q.len() <= b.len(),
        forall|i: int| 0 <= i < q.len() ==> #[trigger] a[i] == b[i],
    ensures
        survivors(q, a, now_ms) == survivors(q, b, now_ms),
    decreases q.len(),
{
    if q.len() > 0 {
        lemma_survivors_prefix(q.drop_last(), a, b, now_ms);
        assert(a[q.len() - 1] == b[q.len() - 1]);
    }
}

/// The connection that is taken is the first one that is still open: all before it are closed.
pub proof fn law_first_open_taken(alive: Seq<bool>)
    ensures
        0 <= dead_front(alive) <= alive.len(),
        dead_front(alive) < alive.len() ==> alive[dead_front(alive)],
        forall|i: int| 0 <= i < dead_front(alive) ==> !#[trigger] alive[i],
    decreases alive.len(),
{
    if alive.len() > 0 && !alive[0] {
        let t = alive.drop_first();
        law_first_open_taken(t);
        assert forall|i: int| 0 <= i < dead_front(alive) implies !#[trigger] alive[i] by {
            if i > 0 {
                assert(alive[i] == t[i - 1]);
            }
        }
    }
}

/// The first measurement counts as it is, but as no more than a second; later ones move the round trip
/// time by an eighth of the difference.
pub proof fn law_rtt_moves_by_an_eighth(prev: u64, sample: u64)
    requires
        prev <= 1_000_000,
    ensures
        ({
            let s = if sample < 1_000_000 {
                sample as int
            } else {
                1_000_000
            };
            &&& prev == 0 ==> smoothed(prev, sample) == s
            &&& prev > 0 ==> 8 * smoothed(prev, sample) <= 8 * prev + (s - prev) < 8 * smoothed(prev, sample) + 8
        }),
{
}

/// The ways in their order: a connection that was kept ready, a new one, a recorded answer, and none.
pub open spec fn ways() -> Seq<Showing> {
    seq![Showing::Ready, Showing::Connect, Showing::Template, Showing::Done]
}

/// Nothing is tried after a way that worked. After one that failed the next in the order is tried, so that
/// none is left out and none is tried twice.
pub proof fn law_ways_in_order(i: int, s: Showing)
    requires
        0 <= i < 3,
    ensures
        showing_after(s, true) is Done,
        showing_after(ways()[i], false) == ways()[i + 1],
        showing_after(Showing::Done, false) is Done,
{
}

} // verus!
