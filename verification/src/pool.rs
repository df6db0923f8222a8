//! The pool of ready tunnels to a server: when tunnels are built, handed out and thrown away, how
//! many are kept, and what is known of the server's health.

use std::collections::VecDeque;
use vstd::multiset::Multiset;
use vstd::prelude::*;
use vstd::relations::{sorted_by, total_ordering};
use vstd::seq_lib::{lemma_sorted_unique, to_multiset_insert};

use crate::wire::{read_u64, u64_at};

verus! {

/// The server that a pool connects to, and the outbound that carries its connections where that is
/// not the network itself.
pub struct PoolConfig {
    pub server_host: String,
    pub server_port: u16,
    pub password: String,
    pub camouflage_host: String,
    pub pool_size: usize,
    pub underlying: Option<usize>,
    pub pfs: bool,
}

/// The fixed-rate congestion control of an outbound: the configured and the current rate in bytes
/// per second, and the sockets that it applies to.
pub struct BrutalState {
    pub configured_rate: Option<u64>,
    pub current_rate: u64,
    pub base_rtt: Option<u64>,
    pub active_fds: Vec<i32>,
}

/// The rate where none is configured.
pub const DEFAULT_RATE: u64 = 8_000_000;

/// Marks a socket as active until it is released.
pub struct ActiveFdGuard {
    pub fd: i32,
}

impl BrutalState {
    /// No socket is listed twice.
    pub open spec fn wf(&self) -> bool {
        self.active_fds@.no_duplicates()
    }

    /// The active sockets.
    pub open spec fn active(&self) -> Set<i32> {
        self.active_fds@.to_set()
    }

    /// No active sockets; the current rate is the configured one, or the default.
    pub fn new(configured_rate: Option<u64>, base_rtt: Option<u64>) -> (r: BrutalState)
        ensures
            r.wf(),
            r.active() == Set::<i32>::empty(),
            r.configured_rate == configured_rate,
            r.base_rtt == base_rtt,
            r.current_rate == match configured_rate {
                Some(x) => x,
                None => DEFAULT_RATE,
            },
    {
        let r: BrutalState = BrutalState {
            configured_rate,
            current_rate: match configured_rate {
                Some(x) => x,
                None => DEFAULT_RATE,
            },
            base_rtt,
            active_fds: Vec::new(),
        };
        assert(r.active() =~= Set::<i32>::empty());
        r
    }

    fn place(&self, fd: i32) -> (r: Option<usize>)
        ensures
            match r {
                Some(i) => i < self.active_fds@.len() && self.active_fds@[i as int] == fd,
                None => !self.active_fds@.contains(fd),
            },
    {
        let mut i: usize = 0;
        while i < self.active_fds.len()
            invariant
                i <= self.active_fds@.len(),
                forall|j: int| 0 <= j < i ==> self.active_fds@[j] != fd,
            decreases self.active_fds@.len() - i,
        {
            if self.active_fds[i] == fd {
                return Some(i);
            }
            i = i + 1;
        }
        None
    }

    /// Marks a socket as active.
    pub fn active_fd_guard(&mut self, fd: i32) -> (r: ActiveFdGuard)
        requires
            old(self).wf(),
        ensures
            final(self).wf(),
            final(self).active() == old(self).active().insert(fd),
            final(self).configured_rate == old(self).configured_rate,
            final(self).current_rate == old(self).current_rate,
            final(self).base_rtt == old(self).base_rtt,
            r.fd == fd,
    {
        match self.place(fd) {
            Some(i) => {
                assert(self.active_fds@.contains(fd));
                assert(self.active() =~= old(self).active().insert(fd));
            },
            None => {
                self.active_fds.push(fd);
                proof {
                    let a = old(self).active_fds@;
                    let b = self.active_fds@;
                    assert forall|i: int, j: int| 0 <= i < b.len() && 0 <= j < b.len() && i != j implies b[i] != b[j] by {
                        if i < a.len() {
                            assert(a.contains(a[i]));
                        }
                        if j < a.len() {
                            assert(a.contains(a[j]));
                        }
                    }
                    assert forall|x: i32| b.contains(x) <==> a.contains(x) || x == fd by {
                        if a.contains(x) {
                            let i = a.index_of(x);
                            assert(b[i] == x);
                        }
                        if x == fd {
                            assert(b[a.len() as int] == x);
                        }
                    }
                    assert(self.active() =~= old(self).active().insert(fd));
                }
            },
        }
        ActiveFdGuard { fd }
    }

    /// Ends the mark of a guard: its socket is no longer active.
    pub fn release(&mut self, guard: ActiveFdGuard)
        requires
            old(self).wf(),
        ensures
            final(self).wf(),
            final(self).active() == old(self).active().remove(guard.fd),
            final(self).configured_rate == old(self).configured_rate,
            final(self).current_rate == old(self).current_rate,
            final(self).base_rtt == old(self).base_rtt,
    {
        match self.place(guard.fd) {
            Some(i) => {
                let _gone: i32 = self.active_fds.remove(i);
                proof {
                    let a = old(self).active_fds@;
                    let b = self.active_fds@;
                    assert(b =~= a.remove(i as int));
                    assert forall|x: i32| b.contains(x) <==> a.contains(x) && x != guard.fd by {
                        if a.contains(x) && x != guard.fd {
                            let j = a.index_of(x);
                            if j < i {
                                assert(b[j] == x);
                            } else {
                                assert(b[j - 1] == x);
                            }
                        }
                        if b.contains(x) {
                            let j = b.index_of(x);
                            if j < i {
                                assert(a[j] == x);
                            } else {
                                assert(a[j + 1] == x);
                            }
                        }
                    }
                    assert(self.active() =~= old(self).active().remove(guard.fd));
                }
            },
            None => {
                assert(self.active() =~= old(self).active().remove(guard.fd));
            },
        }
    }

    /// Sets the rate and says which sockets it is to be applied to: those of the idle tunnels and
    /// then the active ones.
    pub fn update_brutal_rate(&mut self, new_rate: u64, idle_fds: &Vec<i32>) -> (r: Vec<i32>)
        ensures
            final(self).current_rate == new_rate,
            final(self).active_fds == old(self).active_fds,
            final(self).configured_rate == old(self).configured_rate,
            final(self).base_rtt == old(self).base_rtt,
            r@ == idle_fds@ + old(self).active_fds@,
    {
        self.current_rate = new_rate;
        let mut out: Vec<i32> = Vec::new();
        out.extend_from_slice(idle_fds.as_slice());
        out.extend_from_slice(self.active_fds.as_slice());
        assert(out@ =~= idle_fds@ + self.active_fds@);
        out
    }
}

/// A socket that was not active before is active while its guard lasts, and what was active before
/// is active again afterwards.
pub proof fn law_guard_restores(active: Set<i32>, fd: i32)
    requires
        !active.contains(fd),
    ensures
        active.insert(fd).contains(fd),
        active.insert(fd).remove(fd) == active,
{
    assert(active.insert(fd).remove(fd) =~= active);
}

/// How many latency samples are kept.
pub const LATENCY_SAMPLES: usize = 10;

/// The number of failures in a row from which on a server counts as unhealthy.
pub const UNHEALTHY_FAILURES: u32 = 3;

/// What is known of a server: the last latencies in milliseconds, the failures since the last
/// success, and the time of the last sample.
pub struct PoolStats {
    pub latency_samples: VecDeque<u64>,
    pub consecutive_failures: u32,
    pub last_sample_time: Option<u64>,
}

/// The last `n` items.
pub open spec fn newest<T>(s: Seq<T>, n: int) -> Seq<T> {
    if s.len() <= n {
        s
    } else {
        s.skip(s.len() - n)
    }
}

/// The upper median: the middle of the samples in ascending order.
pub open spec fn median(samples: Seq<u64>) -> Option<u64> {
    if samples.len() == 0 {
        None
    } else {
        Some(samples.sort_by(|a: u64, b: u64| a <= b)[samples.len() as int / 2])
    }
}

fn insert_sorted(v: &mut Vec<u64>, x: u64)
    requires
        forall|i: int, j: int| 0 <= i < j < old(v)@.len() ==> old(v)@[i] <= old(v)@[j],
        old(v)@.len() < usize::MAX,
    ensures
        forall|i: int, j: int| 0 <= i < j < final(v)@.len() ==> final(v)@[i] <= final(v)@[j],
        final(v)@.to_multiset() == old(v)@.to_multiset().insert(x),
        final(v)@.len() == old(v)@.len() + 1,
{
    let mut k: usize = 0;
    while k < v.len() && v[k] <= x
        invariant
            k <= v@.len(),
            forall|i: int| 0 <= i < k ==> v@[i] <= x,
        decreases v@.len() - k,
    {
        k = k + 1;
    }
    v.insert(k, x);
    proof {
        to_multiset_insert(old(v)@, k as int, x);
    }
}

impl PoolStats {
    /// At most the allowed number of samples.
    pub open spec fn wf(&self) -> bool {
        self.latency_samples@.len() <= LATENCY_SAMPLES
    }

    /// Nothing known yet.
    pub fn new() -> (r: PoolStats)
        ensures
            r.wf(),
            r.latency_samples@.len() == 0,
            r.consecutive_failures == 0,
            r.last_sample_time is None,
    {
        PoolStats { latency_samples: VecDeque::new(), consecutive_failures: 0, last_sample_time: None }
    }

    /// Records a success: the oldest sample makes room where there are already as many as are kept,
    /// and failures no longer count.
    pub fn record_latency(&mut self, ms: u64, now: u64)
        requires
            old(self).wf(),
        ensures
            final(self).wf(),
            final(self).latency_samples@ == newest(old(self).latency_samples@.push(ms), LATENCY_SAMPLES as int),
            final(self).consecutive_failures == 0,
            final(self).last_sample_time == Some(now),
    {
        if self.latency_samples.len() == LATENCY_SAMPLES {
            let _oldest: Option<u64> = self.latency_samples.pop_front();
        }
        self.latency_samples.push_back(ms);
        self.last_sample_time = Some(now);
        self.consecutive_failures = 0;
        assert(self.latency_samples@ =~= newest(old(self).latency_samples@.push(ms), LATENCY_SAMPLES as int));
    }

    /// Records a failure.
    pub fn record_failure(&mut self)
        requires
            old(self).consecutive_failures < u32::MAX,
        ensures
            final(self).consecutive_failures == old(self).consecutive_failures + 1,
            final(self).latency_samples == old(self).latency_samples,
            final(self).last_sample_time == old(self).last_sample_time,
    {
        self.consecutive_failures = self.consecutive_failures + 1;
    }

    /// The median latency in milliseconds.
    pub fn latency_ms(&self) -> (r: Option<u64>)
        ensures
            r == median(self.latency_samples@),
    {
        let n: usize = self.latency_samples.len();
        if n == 0 {
            return None;
        }
        let ghost s = self.latency_samples@;
        let mut sorted: Vec<u64> = Vec::new();
        let mut i: usize = 0;
        assert(s.take(0) =~= sorted@);
        while i < n
            invariant
                n == s.len(),
                s == self.latency_samples@,
                i <= n,
                sorted@.len() == i,
                sorted@.to_multiset() == s.take(i as int).to_multiset(),
                forall|a: int, b: int| 0 <= a < b < sorted@.len() ==> sorted@[a] <= sorted@[b],
            decreases n - i,
        {
            let x: u64 = self.latency_samples[i];
            insert_sorted(&mut sorted, x);
            proof {
                assert(s.take(i + 1) =~= s.take(i as int).push(x));
                broadcast use vstd::seq_lib::group_to_multiset_ensures;

            }
            i = i + 1;
        }
        proof {
            let leq = |a: u64, b: u64| a <= b;
            assert(s.take(n as int) =~= s);
            s.lemma_sort_by_ensures(leq);
            assert(sorted_by(sorted@, leq));
            lemma_sorted_unique(sorted@, s.sort_by(leq), leq);
        }
        Some(sorted[n / 2])
    }

    /// Healthy until too many failures in a row.
    pub fn is_healthy(&self) -> (r: bool)
        ensures
            r == (self.consecutive_failures < UNHEALTHY_FAILURES),
    {
        self.consecutive_failures < UNHEALTHY_FAILURES
    }
}

/// What happened to a pool since the last time its size was adjusted.
pub struct PoolMetrics {
    pub wait_events: u64,
    pub total_gets: u64,
    pub expired_unused: u64,
}

impl PoolMetrics {
    /// Nothing happened yet.
    pub fn new() -> (r: PoolMetrics)
        ensures
            r.wait_events == 0,
            r.total_gets == 0,
            r.expired_unused == 0,
    {
        PoolMetrics { wait_events: 0, total_gets: 0, expired_unused: 0 }
    }
}

/// The size below which a pool is not shrunk, where its maximum is not smaller.
pub const MIN_TARGET_FLOOR: usize = 10;

/// The smaller of two sizes.
pub open spec fn min_size(a: usize, b: usize) -> usize {
    if a <= b {
        a
    } else {
        b
    }
}

/// The next size of a pool. It grows by a fifth, at least by one and not above the maximum, where
/// more than a fifth of the requests had to wait; it shrinks by one, not below the floor, where none
/// had to wait and at least half as many tunnels expired unused as were requested.
pub open spec fn new_target(cur: int, wait: int, gets: int, expired: int, max: int) -> int {
    let floor = if MIN_TARGET_FLOOR <= max {
        MIN_TARGET_FLOOR as int
    } else {
        max
    };
    if gets > 0 && 5 * wait > gets && cur < max {
        let grown = cur + if cur / 5 > 1 {
            cur / 5
        } else {
            1
        };
        if grown <= max {
            grown
        } else {
            max
        }
    } else if (gets == 0 || wait == 0) && expired >= gets / 2 && cur > floor {
        cur - 1
    } else {
        cur
    }
}

/// Decides the next size of a pool.
pub fn decide_new_target(
    cur_target: usize,
    wait_events: u64,
    total_gets: u64,
    expired_unused: u64,
    max_size: usize,
) -> (r: usize)
    ensures
        r == new_target(
            cur_target as int,
            wait_events as int,
            total_gets as int,
            expired_unused as int,
            max_size as int,
        ),
{
    let floor: usize = if MIN_TARGET_FLOOR <= max_size {
        MIN_TARGET_FLOOR
    } else {
        max_size
    };
    if total_gets > 0 && 5u128 * (wait_events as u128) > total_gets as u128 && cur_target < max_size {
        let step: usize = if cur_target / 5 > 1 {
            cur_target / 5
        } else {
            1
        };
        if step <= max_size - cur_target {
            cur_target + step
        } else {
            max_size
        }
    } else if (total_gets == 0 || wait_events == 0) && expired_unused >= total_gets / 2 && cur_target > floor {
        cur_target - 1
    } else {
        cur_target
    }
}

/// A pool that is within its bounds stays within them.
pub proof fn law_target_bounded(cur: int, wait: int, gets: int, expired: int, max: int)
    requires
        0 <= wait,
        0 <= gets,
        0 <= expired,
        0 <= cur <= max,
    ensures
        0 <= new_target(cur, wait, gets, expired, max) <= max,
        cur >= MIN_TARGET_FLOOR ==> new_target(cur, wait, gets, expired, max) >= MIN_TARGET_FLOOR,
        cur < MIN_TARGET_FLOOR ==> new_target(cur, wait, gets, expired, max) >= cur,
{
}

/// Requests that had to wait never shrink a pool, and an idle pool above the floor always shrinks.
pub proof fn law_target_direction(cur: int, wait: int, gets: int, expired: int, max: int)
    requires
        0 <= expired,
        0 <= cur <= max,
    ensures
        0 < wait && 0 < gets ==> new_target(cur, wait, gets, expired, max) >= cur,
        gets == 0 && MIN_TARGET_FLOOR < cur ==> new_target(cur, wait, gets, expired, max) == cur - 1,
{
}

/// The records of a server's flight that a client waits for.
#[derive(Clone, Copy)]
pub struct Flight {
    pub saw_sh: bool,
    pub saw_ccs: bool,
    pub saw_enc: bool,
}

/// What reading the next record came to.
pub enum FlightEvent {
    /// A whole record with this content type.
    Record(u8),
    /// The header did not arrive whole.
    BadHeader,
    /// The body did not arrive whole.
    BadBody,
    /// The body did not arrive in time.
    BodyTimeout,
    /// No header arrived in time.
    HeaderTimeout,
}

/// Why a flight failed.
#[derive(Clone, Copy, PartialEq, Eq, Structural, Debug)]
pub enum FlightError {
    Alert,
    IncompleteHeader,
    IncompleteBody,
    TimeoutReadingBody,
    TimeoutBeforeCcs,
    Incomplete,
}

/// What to do after an event.
#[derive(Clone, Copy, PartialEq, Eq, Structural, Debug)]
pub enum FlightStep {
    Continue,
    Done,
    Failed(FlightError),
}

/// A flight after an event, and what to do.
pub open spec fn flight_step(f: Flight, e: FlightEvent) -> (Flight, FlightStep) {
    match e {
        FlightEvent::Record(ct) => if ct == 0x15 {
            (f, FlightStep::Failed(FlightError::Alert))
        } else if f.with(ct).complete() {
            (f.with(ct), FlightStep::Done)
        } else {
            (f.with(ct), FlightStep::Continue)
        },
        FlightEvent::BadHeader => (f, FlightStep::Failed(FlightError::IncompleteHeader)),
        FlightEvent::BadBody => (f, FlightStep::Failed(FlightError::IncompleteBody)),
        FlightEvent::BodyTimeout => (f, FlightStep::Failed(FlightError::TimeoutReadingBody)),
        FlightEvent::HeaderTimeout => (
            f,
            FlightStep::Failed(
                if f.saw_ccs {
                    FlightError::Incomplete
                } else {
                    FlightError::TimeoutBeforeCcs
                },
            ),
        ),
    }
}

impl Flight {
    /// Nothing seen yet.
    pub fn new() -> (r: Flight)
        ensures
            !r.saw_sh && !r.saw_ccs && !r.saw_enc,
    {
        Flight { saw_sh: false, saw_ccs: false, saw_enc: false }
    }

    /// All three records were seen.
    pub open spec fn complete(self) -> bool {
        self.saw_sh && self.saw_ccs && self.saw_enc
    }

    /// The flight after a record of this content type.
    pub open spec fn with(self, ct: u8) -> Flight {
        Flight {
            saw_sh: self.saw_sh || ct == 0x16,
            saw_ccs: self.saw_ccs || ct == 0x14,
            saw_enc: self.saw_enc || ct == 0x17,
        }
    }

    /// How long to wait for the next record, in milliseconds: longer before the change of cipher was
    /// seen than after it.
    pub fn wait_ms(&self) -> (r: u64)
        ensures
            r == if self.saw_ccs {
                1500u64
            } else {
                12000u64
            },
    {
        if self.saw_ccs {
            1500
        } else {
            12000
        }
    }

    /// Takes in an event. The flight is done with the record that completes it; an alert, a broken
    /// record or a timeout fails it.
    pub fn on(&mut self, e: FlightEvent) -> (r: FlightStep)
        requires
            !old(self).complete(),
        ensures
            match e {
                FlightEvent::Record(ct) => if ct == 0x15 {
                    *final(self) == *old(self) && r == FlightStep::Failed(FlightError::Alert)
                } else {
                    *final(self) == old(self).with(ct) && r == if old(self).with(ct).complete() {
                        FlightStep::Done
                    } else {
                        FlightStep::Continue
                    }
                },
                FlightEvent::BadHeader => *final(self) == *old(self) && r == FlightStep::Failed(
                    FlightError::IncompleteHeader,
                ),
                FlightEvent::BadBody => *final(self) == *old(self) && r == FlightStep::Failed(
                    FlightError::IncompleteBody,
                ),
                FlightEvent::BodyTimeout => *final(self) == *old(self) && r == FlightStep::Failed(
                    FlightError::TimeoutReadingBody,
                ),
                FlightEvent::HeaderTimeout => *final(self) == *old(self) && r == FlightStep::Failed(
                    if old(self).saw_ccs {
                        FlightError::Incomplete
                    } else {
                        FlightError::TimeoutBeforeCcs
                    },
                ),
            },
            r is Continue ==> !final(self).complete(),
            (*final(self), r) == flight_step(*old(self), e),
    {
        match e {
            FlightEvent::Record(ct) => {
                if ct == 0x15 {
                    return FlightStep::Failed(FlightError::Alert);
                }
                if ct == 0x16 {
                    self.saw_sh = true;
                } else if ct == 0x14 {
                    self.saw_ccs = true;
                } else if ct == 0x17 {
                    self.saw_enc = true;
                }
                if self.saw_sh && self.saw_ccs && self.saw_enc {
                    FlightStep::Done
                } else {
                    FlightStep::Continue
                }
            },
            FlightEvent::BadHeader => FlightStep::Failed(FlightError::IncompleteHeader),
            FlightEvent::BadBody => FlightStep::Failed(FlightError::IncompleteBody),
            FlightEvent::BodyTimeout => FlightStep::Failed(FlightError::TimeoutReadingBody),
            FlightEvent::HeaderTimeout => {
                if self.saw_ccs {
                    FlightStep::Failed(FlightError::Incomplete)
                } else {
                    FlightStep::Failed(FlightError::TimeoutBeforeCcs)
                }
            },
        }
    }
}

/// A ready tunnel: its number, the time in milliseconds at which it was opened, and its age limit in
/// seconds.
#[derive(Clone, Copy)]
pub struct Idle {
    pub id: u64,
    pub created_ms: u64,
    pub max_age_sec: u64,
}

/// Whole seconds between two times; none where the second is not later.
pub open spec fn age_secs(created_ms: int, now_ms: int) -> int {
    if now_ms <= created_ms {
        0
    } else {
        (now_ms - created_ms) / 1000
    }
}

impl Idle {
    /// True where the tunnel is older than its limit.
    pub open spec fn expired(self, now_ms: u64) -> bool {
        age_secs(self.created_ms as int, now_ms as int) > self.max_age_sec
    }

    /// True where the tunnel is older than its limit.
    pub fn is_expired(&self, now_ms: u64) -> (r: bool)
        ensures
            r == self.expired(now_ms),
    {
        if now_ms <= self.created_ms {
            false
        } else {
            (now_ms - self.created_ms) / 1000 > self.max_age_sec
        }
    }
}

/// How long a request may wait before it counts as delayed, in milliseconds.
pub const WAIT_MS: u64 = 50;

/// The pause between two builds, in milliseconds.
pub const BUILD_PACE_MS: u64 = 200;

/// A pool of ready tunnels.
pub struct WarmPool {
    pub queue: VecDeque<Idle>,
    pub target: usize,
    pub in_flight: usize,
    pub pool_size: usize,
    pub next_build_ms: u64,
    pub metrics: PoolMetrics,
    pub stats: PoolStats,
}

/// The tunnels of a queue that are within their age limit.
pub open spec fn fresh(q: Seq<Idle>, now_ms: u64) -> Seq<Idle> {
    q.filter(|t: Idle| !t.expired(now_ms))
}

/// The tunnels of a queue that are beyond their age limit.
pub open spec fn stale(q: Seq<Idle>, now_ms: u64) -> Seq<Idle> {
    q.filter(|t: Idle| t.expired(now_ms))
}

/// How many tunnels at the front of a queue are beyond their age limit.
pub open spec fn stale_prefix(q: Seq<Idle>, now_ms: u64) -> int
    decreases q.len(),
{
    if q.len() == 0 || !q[0].expired(now_ms) {
        0
    } else {
        1 + stale_prefix(q.drop_first(), now_ms)
    }
}

/// What a request got from the queue: the tunnels to close, and a tunnel where one was ready.
pub struct Taken {
    pub closed: Vec<Idle>,
    pub tunnel: Option<Idle>,
}

/// When the next tunnel is built, where one is, by how many there are or are being built, how many there are
/// to be, how many there may be, when the next may be built and what time it is.
pub open spec fn build_at(busy: int, target: int, size: int, next_ms: int, now_ms: int) -> Option<int> {
    if busy >= target || busy >= size {
        None
    } else if next_ms > now_ms {
        Some(next_ms)
    } else {
        Some(now_ms)
    }
}

/// How many requests count as delayed by one that waited so long.
pub open spec fn delayed(waited_ms: u64) -> int {
    if waited_ms > WAIT_MS {
        1
    } else {
        0
    }
}

/// What the builder is to do next.
#[derive(Clone, Copy, PartialEq, Eq, Structural, Debug)]
pub enum BuildStep {
    /// Nothing to build now; look again after a pause.
    Rest,
    /// Build a tunnel, not before this time in milliseconds.
    BuildAt(u64),
}

impl WarmPool {
    /// The statistics are in shape.
    pub open spec fn wf(&self) -> bool {
        self.stats.wf()
    }

    /// An empty pool that aims at the floor, or at its maximum where that is smaller.
    pub fn new(pool_size: usize, now_ms: u64) -> (r: WarmPool)
        ensures
            r.wf(),
            r.queue@.len() == 0,
            r.in_flight == 0,
            r.pool_size == pool_size,
            r.target == min_size(MIN_TARGET_FLOOR, pool_size),
            r.next_build_ms == now_ms,
            r.metrics == (PoolMetrics { wait_events: 0, total_gets: 0, expired_unused: 0 }),
            r.stats.latency_samples@.len() == 0,
            r.stats.consecutive_failures == 0,
            r.stats.last_sample_time is None,
    {
        WarmPool {
            queue: VecDeque::new(),
            target: if MIN_TARGET_FLOOR <= pool_size {
                MIN_TARGET_FLOOR
            } else {
                pool_size
            },
            in_flight: 0,
            pool_size,
            next_build_ms: now_ms,
            metrics: PoolMetrics::new(),
            stats: PoolStats::new(),
        }
    }

    /// The regular adjustment: throws the tunnels beyond their age limit out, returns them to be
    /// closed, sets the next size from what happened since the last adjustment, and starts counting
    /// anew.
    pub fn adjust(&mut self, now_ms: u64) -> (r: Vec<Idle>)
        requires
            old(self).wf(),
            old(self).metrics.expired_unused + old(self).queue@.len() <= u64::MAX,
        ensures
            final(self).wf(),
            final(self).queue@ == fresh(old(self).queue@, now_ms),
            r@ == stale(old(self).queue@, now_ms),
            final(self).target == new_target(
                old(self).target as int,
                old(self).metrics.wait_events as int,
                old(self).metrics.total_gets as int,
                old(self).metrics.expired_unused + stale(old(self).queue@, now_ms).len(),
                old(self).pool_size as int,
            ),
            final(self).metrics == (PoolMetrics { wait_events: 0, total_gets: 0, expired_unused: 0 }),
            final(self).in_flight == old(self).in_flight,
            final(self).pool_size == old(self).pool_size,
            final(self).next_build_ms == old(self).next_build_ms,
            final(self).stats == old(self).stats,
    {
        let ghost q = self.queue@;
        let n: usize = self.queue.len();
        let mut alive: VecDeque<Idle> = VecDeque::new();
        let mut gone: Vec<Idle> = Vec::new();
        let mut i: usize = 0;
        proof {
            reveal(Seq::filter);
            assert(q.take(0) =~= seq![]);
            assert(fresh(q.take(0), now_ms) =~= alive@);
            assert(stale(q.take(0), now_ms) =~= gone@);
        }
        while i < n
            invariant
                n == q.len(),
                q == self.queue@,
                i <= n,
                alive@ == fresh(q.take(i as int), now_ms),
                gone@ == stale(q.take(i as int), now_ms),
                gone@.len() <= i,
            decreases n - i,
        {
            let t: Idle = self.queue[i];
            proof {
                reveal(Seq::filter);
                assert(q.take(i + 1).drop_last() =~= q.take(i as int));
                assert(q.take(i + 1).last() == t);
            }
            if t.is_expired(now_ms) {
                gone.push(t);
            } else {
                alive.push_back(t);
            }
            i = i + 1;
        }
        assert(q.take(n as int) =~= q);
        let expired: u64 = self.metrics.expired_unused + gone.len() as u64;
        self.queue = alive;
        self.target = decide_new_target(
            self.target,
            self.metrics.wait_events,
            self.metrics.total_gets,
            expired,
            self.pool_size,
        );
        self.metrics = PoolMetrics::new();
        gone
    }

    /// Decides whether to build a tunnel: where those ready and those being built are fewer than the
    /// aim and the maximum. Builds are paced.
    pub fn build_step(&mut self, now_ms: u64) -> (r: BuildStep)
        requires
            old(self).wf(),
            old(self).queue@.len() + old(self).in_flight < usize::MAX,
            now_ms + BUILD_PACE_MS <= u64::MAX,
            old(self).next_build_ms + BUILD_PACE_MS <= u64::MAX,
        ensures
            final(self).wf(),
            final(self).queue == old(self).queue,
            final(self).target == old(self).target,
            final(self).pool_size == old(self).pool_size,
            final(self).metrics == old(self).metrics,
            final(self).stats == old(self).stats,
            match build_at(
                old(self).queue@.len() + old(self).in_flight,
                old(self).target as int,
                old(self).pool_size as int,
                old(self).next_build_ms as int,
                now_ms as int,
            ) {
                None => r == BuildStep::Rest && final(self).in_flight == old(self).in_flight && final(self).next_build_ms
                    == old(self).next_build_ms,
                Some(at) => (r matches BuildStep::BuildAt(t) && t == at) && final(self).in_flight == old(self).in_flight + 1
                    && final(self).next_build_ms == at + BUILD_PACE_MS,
            },
    {
        let busy: usize = self.queue.len() + self.in_flight;
        if busy >= self.target || busy >= self.pool_size {
            return BuildStep::Rest;
        }
        self.in_flight = self.in_flight + 1;
        let at: u64 = if self.next_build_ms > now_ms {
            self.next_build_ms
        } else {
            now_ms
        };
        self.next_build_ms = at + BUILD_PACE_MS;
        BuildStep::BuildAt(at)
    }

    /// A tunnel that was being built is ready.
    pub fn built(&mut self, t: Idle, elapsed_ms: u64, now: u64)
        requires
            old(self).wf(),
            old(self).in_flight > 0,
        ensures
            final(self).wf(),
            final(self).queue@ == old(self).queue@.push(t),
            final(self).in_flight == old(self).in_flight - 1,
            final(self).stats.latency_samples@ == newest(
                old(self).stats.latency_samples@.push(elapsed_ms),
                LATENCY_SAMPLES as int,
            ),
            final(self).stats.consecutive_failures == 0,
            final(self).stats.last_sample_time == Some(now),
            final(self).target == old(self).target,
            final(self).pool_size == old(self).pool_size,
            final(self).next_build_ms == old(self).next_build_ms,
            final(self).metrics == old(self).metrics,
    {
        self.stats.record_latency(elapsed_ms, now);
        self.queue.push_back(t);
        self.in_flight = self.in_flight - 1;
    }

    /// A tunnel that was being built could not be opened.
    pub fn build_failed(&mut self)
        requires
            old(self).wf(),
            old(self).in_flight > 0,
            old(self).stats.consecutive_failures < u32::MAX,
        ensures
            final(self).wf(),
            final(self).queue == old(self).queue,
            final(self).in_flight == old(self).in_flight - 1,
            final(self).stats.consecutive_failures == old(self).stats.consecutive_failures + 1,
            final(self).stats.latency_samples == old(self).stats.latency_samples,
            final(self).stats.last_sample_time == old(self).stats.last_sample_time,
            final(self).target == old(self).target,
            final(self).pool_size == old(self).pool_size,
            final(self).next_build_ms == old(self).next_build_ms,
            final(self).metrics == old(self).metrics,
    {
        self.stats.record_failure();
        self.in_flight = self.in_flight - 1;
    }

    /// Counts a request.
    pub fn begin_get(&mut self)
        requires
            old(self).wf(),
            old(self).metrics.total_gets < u64::MAX,
        ensures
            final(self).wf(),
            final(self).metrics == (PoolMetrics {
                total_gets: (old(self).metrics.total_gets + 1) as u64,
                ..old(self).metrics
            }),
            final(self).queue == old(self).queue,
            final(self).target == old(self).target,
            final(self).in_flight == old(self).in_flight,
            final(self).pool_size == old(self).pool_size,
            final(self).next_build_ms == old(self).next_build_ms,
            final(self).stats == old(self).stats,
    {
        self.metrics.total_gets = self.metrics.total_gets + 1;
    }

    /// Takes the oldest tunnel that is within its age limit. Tunnels beyond theirs come out on the
    /// way and are to be closed. A request that waited too long counts as delayed once it gets a
    /// tunnel.
    pub fn take(&mut self, now_ms: u64, waited_ms: u64) -> (r: Taken)
        requires
            old(self).wf(),
            old(self).metrics.wait_events < u64::MAX,
        ensures
            final(self).wf(),
            ({
                let q = old(self).queue@;
                let k = stale_prefix(q, now_ms);
                &&& 0 <= k <= q.len()
                &&& r.closed@ == q.take(k)
                &&& if k == q.len() {
                    r.tunnel is None && final(self).queue@.len() == 0 && final(self).metrics == old(self).metrics
                } else {
                    r.tunnel == Some(q[k]) && final(self).queue@ == q.skip(k + 1) && final(self).metrics == (PoolMetrics {
                        wait_events: (old(self).metrics.wait_events + delayed(waited_ms)) as u64,
                        ..old(self).metrics
                    })
                }
            }),
            final(self).target == old(self).target,
            final(self).in_flight == old(self).in_flight,
            final(self).pool_size == old(self).pool_size,
            final(self).next_build_ms == old(self).next_build_ms,
            final(self).stats == old(self).stats,
    {
        let ghost q = self.queue@;
        let mut closed: Vec<Idle> = Vec::new();
        assert(q.skip(0) =~= q);
        assert(closed@ =~= q.take(0));
        while self.queue.len() > 0
            invariant
                self.wf(),
                q == old(self).queue@,
                closed@.len() <= q.len(),
                closed@ == q.take(closed@.len() as int),
                self.queue@ == q.skip(closed@.len() as int),
                stale_prefix(q, now_ms) == closed@.len() + stale_prefix(self.queue@, now_ms),
                self.metrics == old(self).metrics,
                self.metrics.wait_events < u64::MAX,
                self.target == old(self).target,
                self.in_flight == old(self).in_flight,
                self.pool_size == old(self).pool_size,
                self.next_build_ms == old(self).next_build_ms,
                self.stats == old(self).stats,
            decreases self.queue@.len(),
        {
            let ghost here = self.queue@;
            match self.queue.pop_front() {
                None => {},
                Some(t) => {
                    assert(here[0] == t);
                    assert(self.queue@ =~= here.drop_first());
                    assert(self.queue@ =~= q.skip(closed@.len() as int + 1));
                    if !t.is_expired(now_ms) {
                        if waited_ms > WAIT_MS {
                            self.metrics.wait_events = self.metrics.wait_events + 1;
                        }
                        return Taken { closed, tunnel: Some(t) };
                    }
                    let ghost c0 = closed@;
                    closed.push(t);
                    assert(closed@ =~= q.take(c0.len() as int + 1));
                },
            }
        }
        Taken { closed, tunnel: None }
    }
}

/// A tunnel that is handed out is within its age limit.
pub proof fn law_handed_out_fresh(q: Seq<Idle>, now_ms: u64)
    ensures
        0 <= stale_prefix(q, now_ms) <= q.len(),
        stale_prefix(q, now_ms) < q.len() ==> !q[stale_prefix(q, now_ms)].expired(now_ms),
        forall|i: int| 0 <= i < stale_prefix(q, now_ms) ==> (#[trigger] q[i]).expired(now_ms),
    decreases q.len(),
{
    if q.len() > 0 && q[0].expired(now_ms) {
        let t = q.drop_first();
        law_handed_out_fresh(t, now_ms);
        assert forall|i: int| 0 <= i < stale_prefix(q, now_ms) implies (#[trigger] q[i]).expired(now_ms) by {
            if i > 0 {
                assert(q[i] == t[i - 1]);
            }
        }
    }
}

/// Every tunnel of a queue is either kept or thrown out by an adjustment, never both.
pub proof fn law_adjust_partitions(q: Seq<Idle>, now_ms: u64)
    ensures
        fresh(q, now_ms).len() + stale(q, now_ms).len() == q.len(),
        fresh(q, now_ms).to_multiset().add(stale(q, now_ms).to_multiset()) == q.to_multiset(),
    decreases q.len(),
{
    broadcast use vstd::seq_lib::group_to_multiset_ensures;

    reveal(Seq::filter);
    if q.len() > 0 {
        let h = q.drop_last();
        law_adjust_partitions(h, now_ms);
        assert(q =~= h.push(q.last()));
        assert(fresh(q, now_ms).to_multiset().add(stale(q, now_ms).to_multiset()) =~= q.to_multiset());
    } else {
        assert(fresh(q, now_ms).to_multiset().add(stale(q, now_ms).to_multiset()) =~= q.to_multiset());
    }
}

/// The server's clock in seconds, where a first frame carries it: a frame of ten bytes that starts
/// with two ones.
pub open spec fn time_sync(data: Seq<u8>) -> Option<u64> {
    if data.len() == 10 && data[0] == 1 && data[1] == 1 {
        Some(u64_at(data, 2) as u64)
    } else {
        None
    }
}

/// Reads the server's clock off its first frame.
pub fn parse_time_sync(data: &[u8]) -> (r: Option<u64>)
    ensures
        r == time_sync(data@),
{
    if data.len() == 10 && data[0] == 1 && data[1] == 1 {
        Some(read_u64(data, 2))
    } else {
        None
    }
}

/// The latency of a server is the middle one of its samples, the upper of two: it is one of them, no
/// more than half of them are smaller, and more than half of them are no larger.
pub proof fn law_median_middle(s: Seq<u64>)
    ensures
        s.len() == 0 <==> median(s) is None,
        median(s) matches Some(m) ==> s.contains(m) && s.to_multiset().filter(|x: u64| x < m).len() <= s.len() / 2
            && s.to_multiset().filter(|x: u64| x <= m).len() > s.len() / 2,
{
    broadcast use {vstd::seq_lib::group_to_multiset_ensures, vstd::multiset::group_multiset_axioms};

    if s.len() > 0 {
        let leq = |a: u64, b: u64| a <= b;
        s.lemma_sort_by_ensures(leq);
        let t = s.sort_by(leq);
        let k = s.len() as int / 2;
        assert(t.len() == s.len()) by {
            assert(t.to_multiset().len() == s.to_multiset().len());
        }
        let m = t[k];
        assert(t.contains(m));
        if !s.contains(m) {
            assert(!t.contains(m));
        }
        let lo = t.take(k);
        let hi = t.skip(k);
        assert(t =~= lo + hi);
        vstd::seq_lib::lemma_multiset_commutative(lo, hi);
        let f = |x: u64| x < m;
        let a = lo.to_multiset();
        let b = hi.to_multiset();
        assert(t.to_multiset() =~= a.add(b));
        assert forall|x: u64| b.count(x) > 0 implies x >= m by {
            assert(hi.contains(x));
            let i = hi.index_of(x);
            assert(t[k + i] == x);
            if i > 0 {
                assert(leq(t[k], t[k + i]));
            }
        }
        assert(s.to_multiset().filter(f) =~= a.filter(f));
        lemma_filter_smaller(a, f);
        let lo2 = t.take(k + 1);
        let hi2 = t.skip(k + 1);
        assert(t =~= lo2 + hi2);
        vstd::seq_lib::lemma_multiset_commutative(lo2, hi2);
        let g = |x: u64| x <= m;
        let c = lo2.to_multiset();
        let d = hi2.to_multiset();
        assert(t.to_multiset() =~= c.add(d));
        assert forall|x: u64| c.count(x) > 0 implies x <= m by {
            assert(lo2.contains(x));
            let i = lo2.index_of(x);
            assert(t[i] == x);
            if i < k {
                assert(leq(t[i], t[k]));
            }
        }
        assert(s.to_multiset().filter(g) =~= c.add(d.filter(g)));
    }
}

proof fn lemma_filter_smaller(m: Multiset<u64>, f: spec_fn(u64) -> bool)
    ensures
        m.filter(f).len() <= m.len(),
{
    broadcast use vstd::multiset::group_multiset_axioms;

    let g = |x: u64| !f(x);
    assert(m =~= m.filter(f).add(m.filter(g)));
}

/// The newest samples are kept: the last `n`, in their order, and all of them where there are no more.
pub proof fn law_newest_kept(s: Seq<u64>, x: u64, n: int, i: int)
    requires
        0 < n,
    ensures
        newest(s, n).len() == if s.len() <= n {
            s.len() as int
        } else {
            n
        },
        0 <= i < newest(s, n).len() ==> newest(s, n)[newest(s, n).len() - 1 - i] == s[s.len() - 1 - i],
        newest(s.push(x), n).last() == x,
        s.len() >= n ==> newest(newest(s, n).push(x), n) == newest(s.push(x), n),
{
    if s.len() >= n {
        assert(newest(newest(s, n).push(x), n) =~= newest(s.push(x), n));
    }
}

/// A pool grows exactly where it can and more than a fifth of the requests had to wait: by a fifth of
/// its size, rounded down, but by one at least, and no further than its maximum. It shrinks exactly
/// where it is above the floor, does not grow, no request waited, and half as many tunnels expired as
/// were requested; then by one. Else it stays.
pub proof fn law_target_steps(cur: int, wait: int, gets: int, expired: int, max: int)
    requires
        0 <= wait,
        0 <= gets,
        0 <= expired,
        0 <= cur <= max,
    ensures
        ({
            let t = new_target(cur, wait, gets, expired, max);
            let grows = gets > 0 && 5 * wait > gets && cur < max;
            let shrinks = (gets == 0 || wait == 0) && 2 * expired + 1 >= gets && cur > 10 && cur > 0;
            &&& grows <==> t > cur
            &&& t < cur ==> t == cur - 1
            &&& !grows && shrinks && max >= 10 <==> t < cur
            &&& grows ==> t == cur + 1 || 5 * (t - cur) <= cur
            &&& grows ==> t == max || 5 * (t - cur + 1) > cur
        }),
{
}

/// What a flight has seen after records of these types.
pub open spec fn flight_after(f: Flight, records: Seq<u8>) -> Flight
    decreases records.len(),
{
    if records.len() == 0 {
        f
    } else {
        flight_after(f.with(records[0]), records.drop_first())
    }
}

/// A flight is complete exactly where a handshake record, a change of cipher and an encrypted record
/// have come, in whatever order and with whatever else between them.
pub proof fn law_flight_complete(f: Flight, records: Seq<u8>)
    ensures
        flight_after(f, records).complete() <==> (f.saw_sh || records.contains(22)) && (f.saw_ccs || records.contains(20)) && (
        f.saw_enc || records.contains(23)),
    decreases records.len(),
{
    if records.len() > 0 {
        let r = records.drop_first();
        law_flight_complete(f.with(records[0]), r);
        assert forall|x: u8| records.contains(x) <==> x == records[0] || #[trigger] r.contains(x) by {
            if r.contains(x) {
                assert(records[r.index_of(x) + 1] == x);
            }
            if records.contains(x) && x != records[0] {
                assert(r[records.index_of(x) - 1] == x);
            }
        }
        assert(r.contains(22) || !r.contains(22));
        assert(r.contains(20) || !r.contains(20));
        assert(r.contains(23) || !r.contains(23));
    }
}

/// A tunnel expires one second after its age limit is reached, and not before.
pub proof fn law_expiry(t: Idle, now_ms: u64)
    ensures
        t.expired(now_ms) <==> now_ms >= t.created_ms + 1000 * (t.max_age_sec + 1),
{
}

/// An adjustment keeps exactly the tunnels that have not expired, and throws exactly the others out;
/// both stay in their order.
pub proof fn law_adjust_by_age(q: Seq<Idle>, now_ms: u64, t: Idle)
    ensures
        fresh(q, now_ms).contains(t) <==> q.contains(t) && now_ms < t.created_ms + 1000 * (t.max_age_sec + 1),
        stale(q, now_ms).contains(t) <==> q.contains(t) && now_ms >= t.created_ms + 1000 * (t.max_age_sec + 1),
        fresh(q.push(t), now_ms) == if now_ms < t.created_ms + 1000 * (t.max_age_sec + 1) {
            fresh(q, now_ms).push(t)
        } else {
            fresh(q, now_ms)
        },
        stale(q.push(t), now_ms) == if now_ms >= t.created_ms + 1000 * (t.max_age_sec + 1) {
            stale(q, now_ms).push(t)
        } else {
            stale(q, now_ms)
        },
    decreases q.len(),
{
    reveal(Seq::filter);
    assert(q.push(t).drop_last() =~= q);
    if q.len() > 0 {
        let p = q.drop_last();
        law_adjust_by_age(p, now_ms, t);
        assert(q =~= p.push(q.last()));
        assert(q.contains(t) <==> p.contains(t) || t == q.last()) by {
            if p.contains(t) {
                assert(q[p.index_of(t)] == t);
            }
            if q.contains(t) && t != q.last() {
                assert(p[q.index_of(t)] == t);
            }
        }
        let (f, g) = (fresh(p, now_ms), stale(p, now_ms));
        let x = q.last();
        assert(f.push(x).contains(t) <==> f.contains(t) || t == x) by {
            if f.contains(t) {
                assert(f.push(x)[f.index_of(t)] == t);
            }
            assert(f.push(x)[f.len() as int] == x);
        }
        assert(g.push(x).contains(t) <==> g.contains(t) || t == x) by {
            if g.contains(t) {
                assert(g.push(x)[g.index_of(t)] == t);
            }
            assert(g.push(x)[g.len() as int] == x);
        }
    }
}

/// Only a first frame of ten bytes that starts with two ones carries the server's clock.
pub proof fn law_other_frames_no_clock(data: Seq<u8>)
    requires
        data.len() != 10 || data[0] != 1 || data[1] != 1,
    ensures
        time_sync(data) is None,
{
}

/// The smaller of two sizes is one of them and above neither.
pub proof fn law_smaller_size(a: usize, b: usize)
    ensures
        min_size(a, b) <= a,
        min_size(a, b) <= b,
        min_size(a, b) == a || min_size(a, b) == b,
{
}

/// A tunnel is built exactly where there are fewer than there are to be and than there may be; as soon as
/// it may, and never in the past. Builds that follow each other are a fifth of a second apart at least.
pub proof fn law_builds_paced(busy: int, target: int, size: int, next_ms: int, now_ms: int, busy2: int, later_ms: int)
    ensures
        build_at(busy, target, size, next_ms, now_ms) is Some <==> busy < target && busy < size,
        build_at(busy, target, size, next_ms, now_ms) matches Some(at) ==> at >= now_ms && at >= next_ms && (at == now_ms
            || at == next_ms),
        build_at(busy, target, size, next_ms, now_ms) matches Some(a) ==> (build_at(
            busy2,
            target,
            size,
            a + BUILD_PACE_MS,
            later_ms,
        ) matches Some(b) ==> b - a >= 200),
{
}

/// A request counts as delayed, once, exactly where it waited for more than fifty milliseconds.
pub proof fn law_delays_counted(waited_ms: u64)
    ensures
        delayed(waited_ms) == 1 <==> waited_ms > 50,
        delayed(waited_ms) == 0 <==> waited_ms <= 50,
{
}

/// A flight is read until a record completes it: done with the record after which a handshake record, a
/// change of cipher and an encrypted record have come, going on after every other one but an alert. An
/// alert fails it, and so does everything that is no whole record; a failure changes nothing of what was
/// seen. A silence is told apart by whether the change of cipher came before it.
pub proof fn law_flight_read(f: Flight, ct: u8, e: FlightEvent)
    requires
        !f.complete(),
    ensures
        ({
            let r = flight_step(f, FlightEvent::Record(ct));
            let sh = f.saw_sh || ct == 22;
            let ccs = f.saw_ccs || ct == 20;
            let enc = f.saw_enc || ct == 23;
            &&& ct == 21 <==> r.1 == FlightStep::Failed(FlightError::Alert)
            &&& r.1 is Done <==> ct != 21 && sh && ccs && enc
            &&& r.1 is Failed ==> ct == 21
            &&& ct != 21 ==> r.0 == (Flight { saw_sh: sh, saw_ccs: ccs, saw_enc: enc })
        }),
        flight_step(f, e).1 is Failed ==> flight_step(f, e).0 == f,
        flight_step(f, FlightEvent::BadHeader).1 == FlightStep::Failed(FlightError::IncompleteHeader),
        flight_step(f, FlightEvent::BadBody).1 == FlightStep::Failed(FlightError::IncompleteBody),
        flight_step(f, FlightEvent::BodyTimeout).1 == FlightStep::Failed(FlightError::TimeoutReadingBody),
        flight_step(f, FlightEvent::HeaderTimeout).1 == FlightStep::Failed(FlightError::Incomplete) <==> f.saw_ccs,
        flight_step(f, FlightEvent::HeaderTimeout).1 == FlightStep::Failed(FlightError::TimeoutBeforeCcs) <==> !f.saw_ccs,
{
}

} // verus!
