//! Limits of the server's users: rates, quotas per billing period, and what survives a change of the
//! configuration or a restart.

use vstd::prelude::*;

use crate::calendar::{compute_period_start, period_start};
use crate::rate_limit::{bytes_per_sec, fresh_buckets, to_bytes_per_sec, DeviceBuckets};
use crate::table::{lemma_map_of, Table};
use crate::text::same_text;

verus! {

/// An outside type: a moment of the system's clock.
#[verifier::external_type_specification]
#[verifier::external_body]
pub struct ExSystemTime(std::time::SystemTime);

/// An outside type: the error that one moment is not after another.
#[verifier::external_type_specification]
#[verifier::external_body]
pub struct ExSystemTimeError(std::time::SystemTimeError);

/// `SystemTime::now` returns the present moment; nothing is stated of it.
pub assume_specification[ std::time::SystemTime::now ]() -> (r: std::time::SystemTime);

/// `SystemTime::duration_since` returns the time since an earlier moment, or an error where the moment
/// is later; nothing is stated of either.
pub assume_specification[ std::time::SystemTime::duration_since ](
    s: &std::time::SystemTime,
    earlier: std::time::SystemTime,
) -> (r: Result<std::time::Duration, std::time::SystemTimeError>);

/// `Duration::as_secs` returns the whole seconds; nothing is stated of them.
pub assume_specification[ std::time::Duration::as_secs ](d: &std::time::Duration) -> (r: u64);

/// The constant `SystemTime::UNIX_EPOCH`: the beginning of the year 1970.
#[verifier::external_body]
fn unix_epoch() -> (r: std::time::SystemTime) {
    std::time::SystemTime::UNIX_EPOCH
}

/// The time on a clock that is so many seconds past 1970; zero for one that is before it.
pub fn clock_secs(since: Option<u64>) -> (r: u64)
    ensures
        r == match since {
            Some(n) => n,
            None => 0,
        },
{
    match since {
        Some(n) => n,
        None => 0,
    }
}

/// The seconds since 1970 by the system's clock, zero where the clock is before that. What the clock
/// says is not stated.
pub fn current_unix_time() -> (r: u64) {
    clock_secs(
        match std::time::SystemTime::now().duration_since(unix_epoch()) {
            Ok(d) => Some(d.as_secs()),
            Err(_) => None,
        },
    )
}

/// A user of the server. Kilobits per second and bytes per period are limits where they are there and
/// not zero.
pub struct MirageUser {
    pub name: String,
    pub password: String,
    pub rate_limit_kbps: Option<u64>,
    pub quota_bytes: Option<u64>,
    pub quota_reset_day: Option<u8>,
}

/// What is saved of a user's period.
#[derive(Clone, Copy, PartialEq, Eq, Structural, Debug, Default)]
pub struct UserQuotaPersist {
    pub period_bytes: u64,
    pub period_start: u64,
}

/// The limits of a user and what has been used of them. A quota of zero is none.
pub struct UserLimitHandle {
    pub name: String,
    pub buckets: Option<DeviceBuckets>,
    pub quota_bytes: u64,
    pub reset_day: u8,
    pub period_start: u64,
    pub period_used: u64,
    pub exhausted: bool,
}

/// A quota is used up.
pub open spec fn used_up(quota: u64, used: u64) -> bool {
    quota != 0 && used >= quota
}

/// The rate of a user in bytes per second.
pub open spec fn user_rate(u: MirageUser) -> Option<u64> {
    match u.rate_limit_kbps {
        Some(k) => if k > 0 {
            Some(bytes_per_sec(k))
        } else {
            None
        },
        None => None,
    }
}

/// The quota of a user; zero for none.
pub open spec fn user_quota(u: MirageUser) -> u64 {
    match u.quota_bytes {
        Some(q) => q,
        None => 0,
    }
}

/// The day of the month on which a user's period begins.
pub open spec fn user_day(u: MirageUser) -> u8 {
    match u.quota_reset_day {
        Some(d) => if d < 1 {
            1
        } else if d > 28 {
            28
        } else {
            d
        },
        None => 1,
    }
}

/// Full buckets of a rate, where there is one.
pub open spec fn buckets_of(rate: Option<u64>, now_ns: u64) -> Option<DeviceBuckets> {
    match rate {
        Some(r) => Some(fresh_buckets(r, now_ns)),
        None => None,
    }
}

/// The buckets after a change of the configuration: the old ones while the rate stays.
pub open spec fn kept_buckets(old: Option<DeviceBuckets>, rate: Option<u64>, now_ns: u64) -> Option<DeviceBuckets> {
    match (old, rate) {
        (Some(b), Some(r)) => if b.up.rate == r {
            old
        } else {
            buckets_of(rate, now_ns)
        },
        _ => buckets_of(rate, now_ns),
    }
}

/// A user's limits after a change of the configuration: what was used in the present period still
/// counts.
pub open spec fn renewed(h: UserLimitHandle, u: MirageUser, now: u64, now_ns: u64) -> UserLimitHandle {
    let start = period_start(now, user_day(u));
    let used = if h.period_start == start {
        h.period_used
    } else {
        0
    };
    UserLimitHandle {
        name: h.name,
        buckets: kept_buckets(h.buckets, user_rate(u), now_ns),
        quota_bytes: user_quota(u),
        reset_day: user_day(u),
        period_start: start,
        period_used: used,
        exhausted: used_up(user_quota(u), used),
    }
}

/// The limits of a new user: what was saved of the present period counts.
pub open spec fn created(
    u: MirageUser,
    restored: Map<Seq<char>, UserQuotaPersist>,
    now: u64,
    now_ns: u64,
) -> UserLimitHandle {
    let start = period_start(now, user_day(u));
    let used = if restored.dom().contains(u.name@) && restored[u.name@].period_start == start {
        restored[u.name@].period_bytes
    } else {
        0
    };
    UserLimitHandle {
        name: u.name,
        buckets: buckets_of(user_rate(u), now_ns),
        quota_bytes: user_quota(u),
        reset_day: user_day(u),
        period_start: start,
        period_used: used,
        exhausted: used_up(user_quota(u), used),
    }
}

/// The limits, and where those of each user are, after the first `n` users of a configuration. Users
/// that were there before keep their place; the default user has no limits.
pub open spec fn rebuilt(
    users: Seq<MirageUser>,
    n: int,
    handles: Seq<UserLimitHandle>,
    before: Map<Seq<char>, usize>,
    restored: Map<Seq<char>, UserQuotaPersist>,
    now: u64,
    now_ns: u64,
) -> (Seq<UserLimitHandle>, Map<Seq<char>, usize>)
    decreases n,
{
    if n <= 0 {
        (handles, Map::empty())
    } else {
        let x = rebuilt(users, n - 1, handles, before, restored, now, now_ns);
        let u = users[n - 1];
        if u.name@ == "default"@ {
            x
        } else if before.dom().contains(u.name@) {
            let i = before[u.name@];
            (x.0.update(i as int, renewed(x.0[i as int], u, now, now_ns)), x.1.insert(u.name@, i))
        } else {
            (x.0.push(created(u, restored, now, now_ns)), x.1.insert(u.name@, x.0.len() as usize))
        }
    }
}

/// All limits ever made, where those of each present user are, and what was saved.
pub struct UserLimitsRegistry {
    pub handles: Vec<UserLimitHandle>,
    pub users: Table<String, usize>,
    pub restored: Table<String, UserQuotaPersist>,
}

/// Every name leads to the limits of that name.
pub open spec fn names_right(handles: Seq<UserLimitHandle>, users: Map<Seq<char>, usize>) -> bool {
    forall|t: Seq<char>| #[trigger]
        users.dom().contains(t) ==> users[t] < handles.len() && handles[users[t] as int].name@ == t
}

/// The buckets of all users are in shape.
pub open spec fn buckets_right(handles: Seq<UserLimitHandle>) -> bool {
    forall|i: int|
        0 <= i < handles.len() ==> match (#[trigger] handles[i]).buckets {
            Some(b) => b.wf(),
            None => true,
        }
}

/// The limits at a place are those of a present user.
pub open spec fn present(handles: Seq<UserLimitHandle>, users: Map<Seq<char>, usize>, i: int) -> bool {
    users.dom().contains(handles[i].name@) && users[handles[i].name@] == i
}

/// A user's limits where the period may have changed.
pub open spec fn rolled(h: UserLimitHandle, now: u64) -> UserLimitHandle {
    let start = period_start(now, h.reset_day);
    if start != h.period_start {
        UserLimitHandle { period_start: start, period_used: 0, exhausted: false, ..h }
    } else {
        h
    }
}

/// A user's limits after what was saved has been put back, where it is of the present period.
pub open spec fn put_back(h: UserLimitHandle, p: UserQuotaPersist, now: u64) -> UserLimitHandle {
    if p.period_start == period_start(now, h.reset_day) {
        UserLimitHandle {
            period_start: p.period_start,
            period_used: p.period_bytes,
            exhausted: used_up(h.quota_bytes, p.period_bytes),
            ..h
        }
    } else {
        h
    }
}

/// A user's limits after more bytes.
pub open spec fn recorded(h: UserLimitHandle, n: usize) -> UserLimitHandle {
    if h.quota_bytes == 0 {
        h
    } else {
        UserLimitHandle {
            period_used: ((h.period_used + n) % 0x1_0000_0000_0000_0000) as u64,
            exhausted: h.exhausted || h.period_used + n >= h.quota_bytes,
            ..h
        }
    }
}

impl UserLimitHandle {
    /// Limits of which `period_used` bytes are used.
    pub fn new(
        name: &String,
        buckets: Option<DeviceBuckets>,
        quota: Option<u64>,
        reset_day: u8,
        period_start: u64,
        period_used: u64,
    ) -> (r: UserLimitHandle)
        ensures
            ({
                let q = match quota {
                    Some(x) => x,
                    None => 0,
                };
                r == (UserLimitHandle {
                    name: *name,
                    buckets,
                    quota_bytes: q,
                    reset_day,
                    period_start,
                    period_used,
                    exhausted: used_up(q, period_used),
                })
            }),
    {
        let q: u64 = match quota {
            Some(x) => x,
            None => 0,
        };
        UserLimitHandle {
            name: name.clone(),
            buckets,
            quota_bytes: q,
            reset_day,
            period_start,
            period_used,
            exhausted: q != 0 && period_used >= q,
        }
    }

    fn copy(&self) -> (r: UserLimitHandle)
        ensures
            r == *self,
    {
        UserLimitHandle {
            name: self.name.clone(),
            buckets: self.buckets,
            quota_bytes: self.quota_bytes,
            reset_day: self.reset_day,
            period_start: self.period_start,
            period_used: self.period_used,
            exhausted: self.exhausted,
        }
    }

    /// The buckets, where the user's rate is limited.
    pub fn buckets(&self) -> (r: Option<DeviceBuckets>)
        ensures
            r == self.buckets,
    {
        self.buckets
    }

    /// The quota, where there is one.
    pub fn quota_bytes(&self) -> (r: Option<u64>)
        ensures
            r == (if self.quota_bytes == 0 {
                None
            } else {
                Some(self.quota_bytes)
            }),
    {
        if self.quota_bytes == 0 {
            None
        } else {
            Some(self.quota_bytes)
        }
    }

    /// The day of the month on which the period begins.
    pub fn reset_day(&self) -> (r: u8)
        ensures
            r == self.reset_day,
    {
        self.reset_day
    }

    /// Counts bytes; the result says whether the quota is used up. Without a quota nothing is counted.
    pub fn record_bytes(&mut self, n: usize) -> (r: bool)
        ensures
            *final(self) == recorded(*old(self), n),
            r == final(self).exhausted,
    {
        if self.quota_bytes != 0 {
            let prev: u64 = self.period_used;
            self.period_used = prev.wrapping_add(n as u64);
            let reached: bool = match prev.checked_add(n as u64) {
                Some(x) => x >= self.quota_bytes,
                None => true,
            };
            if reached {
                self.exhausted = true;
            }
        }
        self.exhausted
    }

    /// Whether the quota is used up.
    pub fn is_exhausted(&self) -> (r: bool)
        ensures
            r == self.exhausted,
    {
        self.exhausted
    }
}

impl UserLimitsRegistry {
    /// No name is listed twice, every name leads to its limits, and the buckets are in shape.
    pub open spec fn wf(&self) -> bool {
        &&& self.users.wf()
        &&& self.restored.wf()
        &&& names_right(self.handles@, self.users@)
        &&& buckets_right(self.handles@)
    }

    /// No users.
    pub fn new() -> (r: UserLimitsRegistry)
        ensures
            r.wf(),
            r.handles@.len() == 0,
            r.users@ == Map::<Seq<char>, usize>::empty(),
            r.restored@ == Map::<Seq<char>, UserQuotaPersist>::empty(),
    {
        UserLimitsRegistry { handles: Vec::new(), users: Table::new(), restored: Table::new() }
    }
}

fn rate_of_user(u: &MirageUser) -> (r: Option<u64>)
    ensures
        r == user_rate(*u),
{
    match u.rate_limit_kbps {
        Some(k) => {
            if k > 0 {
                Some(to_bytes_per_sec(k))
            } else {
                None
            }
        },
        None => None,
    }
}

fn day_of_user(u: &MirageUser) -> (r: u8)
    ensures
        r == user_day(*u),
{
    match u.quota_reset_day {
        Some(d) => {
            if d < 1 {
                1
            } else if d > 28 {
                28
            } else {
                d
            }
        },
        None => 1,
    }
}

fn make_buckets(rate: Option<u64>, now_ns: u64) -> (r: Option<DeviceBuckets>)
    ensures
        r == buckets_of(rate, now_ns),
        r matches Some(b) ==> b.wf(),
{
    match rate {
        Some(x) => Some(DeviceBuckets::new(x, now_ns)),
        None => None,
    }
}

fn renew(h: &UserLimitHandle, u: &MirageUser, now: u64, now_ns: u64) -> (r: UserLimitHandle)
    requires
        h.buckets matches Some(b) ==> b.wf(),
    ensures
        r == renewed(*h, *u, now, now_ns),
        r.buckets matches Some(b) ==> b.wf(),
{
    let rate: Option<u64> = rate_of_user(u);
    let day: u8 = day_of_user(u);
    let start: u64 = compute_period_start(now, day);
    let used: u64 = if h.period_start == start {
        h.period_used
    } else {
        0
    };
    let keep: bool = match (h.buckets, rate) {
        (Some(b), Some(r)) => b.up.rate == r,
        _ => false,
    };
    let buckets: Option<DeviceBuckets> = if keep {
        h.buckets
    } else {
        make_buckets(rate, now_ns)
    };
    UserLimitHandle::new(&h.name, buckets, u.quota_bytes, day, start, used)
}

fn create(u: &MirageUser, restored: &Table<String, UserQuotaPersist>, now: u64, now_ns: u64) -> (r: UserLimitHandle)
    requires
        restored.wf(),
    ensures
        r == created(*u, restored@, now, now_ns),
        r.buckets matches Some(b) ==> b.wf(),
{
    let rate: Option<u64> = rate_of_user(u);
    let day: u8 = day_of_user(u);
    let start: u64 = compute_period_start(now, day);
    let used: u64 = match restored.get(&u.name) {
        Some(p) => {
            if p.period_start == start {
                p.period_bytes
            } else {
                0
            }
        },
        None => 0,
    };
    let buckets: Option<DeviceBuckets> = make_buckets(rate, now_ns);
    UserLimitHandle::new(&u.name, buckets, u.quota_bytes, day, start, used)
}

/// Sets up the limits for the users of a configuration. With `reload`, users that were there before
/// keep their place and what they have used.
pub fn build_registry(l: &mut UserLimitsRegistry, users: &[MirageUser], reload: bool, now: u64, now_ns: u64)
    requires
        old(l).wf(),
        old(l).handles@.len() + users@.len() <= usize::MAX,
    ensures
        final(l).wf(),
        final(l).restored == old(l).restored,
        (final(l).handles@, final(l).users@) == rebuilt(
            users@,
            users@.len() as int,
            old(l).handles@,
            if reload {
                old(l).users@
            } else {
                Map::empty()
            },
            old(l).restored@,
            now,
            now_ns,
        ),
{
    let mut fresh: Table<String, usize> = Table::new();
    let mut i: usize = 0;
    let ghost h0 = l.handles@;
    let ghost before = if reload {
        l.users@
    } else {
        Map::<Seq<char>, usize>::empty()
    };
    assert(fresh@ =~= Map::empty());
    while i < users.len()
        invariant
            i <= users@.len(),
            l.users == old(l).users,
            l.restored == old(l).restored,
            l.users.wf(),
            l.restored.wf(),
            fresh.wf(),
            h0 == old(l).handles@,
            before == (if reload {
                l.users@
            } else {
                Map::<Seq<char>, usize>::empty()
            }),
            names_right(l.handles@, l.users@),
            names_right(l.handles@, fresh@),
            buckets_right(l.handles@),
            l.handles@.len() <= h0.len() + i,
            h0.len() + users@.len() <= usize::MAX,
            (l.handles@, fresh@) == rebuilt(users@, i as int, h0, before, l.restored@, now, now_ns),
        decreases users@.len() - i,
    {
        let u: &MirageUser = &users[i];
        let ghost hs = l.handles@;
        let ghost fr = fresh@;
        if !same_text(u.name.as_str(), "default") {
            let found: Option<usize> = if reload {
                match l.users.get(&u.name) {
                    Some(k) => Some(*k),
                    None => None,
                }
            } else {
                None
            };
            match found {
                Some(k) => {
                    let h: UserLimitHandle = renew(&l.handles[k], u, now, now_ns);
                    l.handles.set(k, h);
                    fresh.insert(u.name.clone(), k);
                    proof {
                        assert(l.handles@ == hs.update(k as int, h));
                        assert forall|t: Seq<char>| #[trigger] l.users@.dom().contains(t) implies l.users@[t]
                            < l.handles@.len() && l.handles@[l.users@[t] as int].name@ == t by {
                            assert(hs[l.users@[t] as int].name@ == t);
                        }
                        assert forall|t: Seq<char>| #[trigger] fresh@.dom().contains(t) implies fresh@[t]
                            < l.handles@.len() && l.handles@[fresh@[t] as int].name@ == t by {
                            if t != u.name@ {
                                assert(fr.dom().contains(t));
                            }
                        }
                    }
                },
                None => {
                    let h: UserLimitHandle = create(u, &l.restored, now, now_ns);
                    let at: usize = l.handles.len();
                    l.handles.push(h);
                    fresh.insert(u.name.clone(), at);
                    proof {
                        assert forall|t: Seq<char>| #[trigger] l.users@.dom().contains(t) implies l.users@[t]
                            < l.handles@.len() && l.handles@[l.users@[t] as int].name@ == t by {
                            assert(hs[l.users@[t] as int].name@ == t);
                        }
                        assert forall|t: Seq<char>| #[trigger] fresh@.dom().contains(t) implies fresh@[t]
                            < l.handles@.len() && l.handles@[fresh@[t] as int].name@ == t by {
                            if t != u.name@ {
                                assert(fr.dom().contains(t));
                            }
                        }
                    }
                },
            }
        }
        i = i + 1;
    }
    l.users = fresh;
}

/// The limits of `a` have been set up as those of `b` at this moment.
pub open spec fn set_up(
    a: UserLimitsRegistry,
    b: UserLimitsRegistry,
    users: Seq<MirageUser>,
    reload: bool,
    now: u64,
    now_ns: u64,
) -> bool {
    b.restored == a.restored && (b.handles@, b.users@) == rebuilt(
        users,
        users.len() as int,
        a.handles@,
        if reload {
            a.users@
        } else {
            Map::empty()
        },
        a.restored@,
        now,
        now_ns,
    )
}

/// Sets up the limits of the users at the present moment.
pub fn init_user_limits(l: &mut UserLimitsRegistry, users: &[MirageUser], now_ns: u64)
    requires
        old(l).wf(),
        old(l).handles@.len() + users@.len() <= usize::MAX,
    ensures
        final(l).wf(),
        exists|now: u64| #[trigger] set_up(*old(l), *final(l), users@, false, now, now_ns),
{
    let now: u64 = current_unix_time();
    build_registry(l, users, false, now, now_ns);
    assert(set_up(*old(l), *l, users@, false, now, now_ns));
}

/// Sets up the limits of the users after a change of the configuration, at the present moment.
pub fn reload_user_limits(l: &mut UserLimitsRegistry, users: &[MirageUser], now_ns: u64)
    requires
        old(l).wf(),
        old(l).handles@.len() + users@.len() <= usize::MAX,
    ensures
        final(l).wf(),
        exists|now: u64| #[trigger] set_up(*old(l), *final(l), users@, true, now, now_ns),
{
    let now: u64 = current_unix_time();
    build_registry(l, users, true, now, now_ns);
    assert(set_up(*old(l), *l, users@, true, now, now_ns));
}

/// The limits of a user.
pub fn get_user_limit(l: &UserLimitsRegistry, name: &str) -> (r: Option<usize>)
    requires
        l.wf(),
    ensures
        match r {
            Some(i) => l.users@.dom().contains(name@) && i == l.users@[name@] && i < l.handles@.len(),
            None => !l.users@.dom().contains(name@),
        },
{
    let key: String = name.to_owned();
    match l.users.get(&key) {
        Some(i) => Some(*i),
        None => None,
    }
}

/// Forgets what a user has used of the present period, saved or not.
pub fn reset_user_quota(l: &mut UserLimitsRegistry, name: &str)
    requires
        old(l).wf(),
    ensures
        final(l).wf(),
        final(l).users == old(l).users,
        final(l).handles@ == (if old(l).users@.dom().contains(name@) {
            let i = old(l).users@[name@] as int;
            old(l).handles@.update(
                i,
                (UserLimitHandle { period_used: 0, exhausted: false, ..old(l).handles@[i] }),
            )
        } else {
            old(l).handles@
        }),
        final(l).restored@ == (if old(l).restored@.dom().contains(name@) {
            old(l).restored@.insert(
                name@,
                (UserQuotaPersist { period_bytes: 0, ..old(l).restored@[name@] }),
            )
        } else {
            old(l).restored@
        }),
{
    match get_user_limit(l, name) {
        Some(i) => {
            let mut h: UserLimitHandle = l.handles[i].copy();
            h.period_used = 0;
            h.exhausted = false;
            let ghost hs = l.handles@;
            l.handles.set(i, h);
            proof {
                assert(l.handles@ == hs.update(i as int, h));
                assert forall|t: Seq<char>| #[trigger] l.users@.dom().contains(t) implies l.users@[t] < l.handles@.len()
                    && l.handles@[l.users@[t] as int].name@ == t by {
                    assert(hs[l.users@[t] as int].name@ == t);
                }
            }
        },
        None => {},
    }
    let key: String = name.to_owned();
    let saved: Option<UserQuotaPersist> = match l.restored.get(&key) {
        Some(p) => Some(*p),
        None => None,
    };
    match saved {
        Some(p) => {
            l.restored.insert(key, UserQuotaPersist { period_bytes: 0, period_start: p.period_start });
        },
        None => {},
    }
}

/// What is saved of each user.
pub open spec fn saved_of(handles: Seq<UserLimitHandle>, users: Map<Seq<char>, usize>) -> Map<Seq<char>, UserQuotaPersist> {
    Map::new(
        |t: Seq<char>| users.dom().contains(t),
        |t: Seq<char>|
            UserQuotaPersist {
                period_bytes: handles[users[t] as int].period_used,
                period_start: handles[users[t] as int].period_start,
            },
    )
}

/// What has to be saved of each user.
pub fn export_persisted_quotas(l: &UserLimitsRegistry) -> (r: Table<String, UserQuotaPersist>)
    requires
        l.wf(),
    ensures
        r.wf(),
        r@ == saved_of(l.handles@, l.users@),
{
    let mut out: Table<String, UserQuotaPersist> = Table::new();
    let n: usize = l.users.len();
    let mut i: usize = 0;
    while i < n
        invariant
            n == l.users.keys().len(),
            i <= n,
            l.wf(),
            out.wf(),
            forall|t: Seq<char>| #[trigger]
                out@.dom().contains(t) <==> exists|k: int| 0 <= k < i && #[trigger] l.users.keys()[k] == t,
            forall|t: Seq<char>| #[trigger]
                out@.dom().contains(t) ==> l.users@.dom().contains(t) && out@[t] == saved_of(l.handles@, l.users@)[t],
        decreases n - i,
    {
        proof {
            lemma_map_of(l.users.keys(), l.users.vals(), i as int);
        }
        let k: usize = *l.users.val_at(i);
        let ghost name = l.users.keys()[i as int];
        assert(l.users@.dom().contains(name) && l.users@[name] == k);
        let h: &UserLimitHandle = &l.handles[k];
        let ghost before = out@;
        let key: String = l.users.key_at(i).clone();
        out.insert(key, UserQuotaPersist { period_bytes: h.period_used, period_start: h.period_start });
        proof {
            assert forall|t: Seq<char>| #[trigger] out@.dom().contains(t) <==> exists|k: int|
                0 <= k < i + 1 && #[trigger] l.users.keys()[k] == t by {
                if out@.dom().contains(t) {
                    if t == name {
                        assert(l.users.keys()[i as int] == t);
                    } else {
                        assert(before.dom().contains(t));
                    }
                }
                if exists|k: int| 0 <= k < i + 1 && #[trigger] l.users.keys()[k] == t {
                    let k = choose|k: int| 0 <= k < i + 1 && #[trigger] l.users.keys()[k] == t;
                    if k < i {
                        assert(before.dom().contains(t));
                    }
                }
            }
        }
        i = i + 1;
    }
    proof {
        assert forall|t: Seq<char>| #[trigger] out@.dom().contains(t) <==> saved_of(l.handles@, l.users@).dom().contains(
            t,
        ) by {
            if l.users@.dom().contains(t) {
                let k = l.users.keys().index_of(t);
                assert(l.users.keys()[k] == t);
            }
        }
        assert(out@ =~= saved_of(l.handles@, l.users@));
    }
    out
}

/// The limits with those of the present users changed as given.
pub open spec fn changed(
    handles: Seq<UserLimitHandle>,
    users: Map<Seq<char>, usize>,
    f: spec_fn(UserLimitHandle) -> UserLimitHandle,
) -> Seq<UserLimitHandle> {
    Seq::new(handles.len(), |i: int| if present(handles, users, i) {
        f(handles[i])
    } else {
        handles[i]
    })
}

/// Begins a new period for every user whose period is over, at this moment.
pub fn check_period_rollover_at(l: &mut UserLimitsRegistry, now: u64)
    requires
        old(l).wf(),
    ensures
        final(l).wf(),
        final(l).users == old(l).users,
        final(l).restored == old(l).restored,
        final(l).handles@ == changed(old(l).handles@, old(l).users@, |h: UserLimitHandle| rolled(h, now)),
{
    let n: usize = l.handles.len();
    let mut i: usize = 0;
    let ghost h0 = l.handles@;
    let ghost f = |h: UserLimitHandle| rolled(h, now);
    while i < n
        invariant
            i <= n,
            n == h0.len(),
            h0 == old(l).handles@,
            l.handles@.len() == n,
            l.users == old(l).users,
            l.restored == old(l).restored,
            l.wf(),
            f == |h: UserLimitHandle| rolled(h, now),
            forall|k: int| 0 <= k < i ==> #[trigger] l.handles@[k] == changed(h0, l.users@, f)[k],
            forall|k: int| i <= k < n ==> #[trigger] l.handles@[k] == h0[k],
        decreases n - i,
    {
        let is_present: bool = match l.users.get(&l.handles[i].name) {
            Some(k) => *k == i,
            None => false,
        };
        if is_present {
            let start: u64 = compute_period_start(now, l.handles[i].reset_day);
            if start != l.handles[i].period_start {
                let ghost hs = l.handles@;
                let mut h: UserLimitHandle = l.handles[i].copy();
                h.period_start = start;
                h.period_used = 0;
                h.exhausted = false;
                l.handles.set(i, h);
                proof {
                    assert(l.handles@ == hs.update(i as int, h));
                    assert forall|t: Seq<char>| #[trigger] l.users@.dom().contains(t) implies l.users@[t]
                        < l.handles@.len() && l.handles@[l.users@[t] as int].name@ == t by {
                        assert(hs[l.users@[t] as int].name@ == t);
                    }
                }
            }
        }
        i = i + 1;
    }
    assert(l.handles@ =~= changed(h0, l.users@, f));
}

/// The periods have been checked at this moment.
pub open spec fn rolled_over(a: UserLimitsRegistry, b: UserLimitsRegistry, now: u64) -> bool {
    b.handles@ == changed(a.handles@, a.users@, |h: UserLimitHandle| rolled(h, now))
}

/// Begins a new period for every user whose period is over.
pub fn check_period_rollover(l: &mut UserLimitsRegistry)
    requires
        old(l).wf(),
    ensures
        final(l).wf(),
        final(l).users == old(l).users,
        final(l).restored == old(l).restored,
        exists|now: u64| #[trigger] rolled_over(*old(l), *final(l), now),
{
    let now: u64 = current_unix_time();
    check_period_rollover_at(l, now);
    assert(rolled_over(*old(l), *l, now));
}

/// A user's limits with what was saved of it, where something was.
pub open spec fn put_back_from(data: Map<Seq<char>, UserQuotaPersist>, h: UserLimitHandle, now: u64) -> UserLimitHandle {
    if data.dom().contains(h.name@) {
        put_back(h, data[h.name@], now)
    } else {
        h
    }
}

/// Puts back what was saved, at this moment, and keeps it for users that come later.
pub fn restore_persisted_quotas_at(l: &mut UserLimitsRegistry, data: Table<String, UserQuotaPersist>, now: u64)
    requires
        old(l).wf(),
        data.wf(),
    ensures
        final(l).wf(),
        final(l).users == old(l).users,
        final(l).restored == data,
        final(l).handles@ == changed(
            old(l).handles@,
            old(l).users@,
            |h: UserLimitHandle| put_back_from(data@, h, now),
        ),
{
    let n: usize = l.handles.len();
    let mut i: usize = 0;
    let ghost h0 = l.handles@;
    let ghost f = |h: UserLimitHandle| put_back_from(data@, h, now);
    while i < n
        invariant
            i <= n,
            n == h0.len(),
            h0 == old(l).handles@,
            l.handles@.len() == n,
            l.users == old(l).users,
            l.wf(),
            data.wf(),
            f == |h: UserLimitHandle| put_back_from(data@, h, now),
            forall|k: int| 0 <= k < i ==> #[trigger] l.handles@[k] == changed(h0, l.users@, f)[k],
            forall|k: int| i <= k < n ==> #[trigger] l.handles@[k] == h0[k],
        decreases n - i,
    {
        let is_present: bool = match l.users.get(&l.handles[i].name) {
            Some(k) => *k == i,
            None => false,
        };
        let saved: Option<UserQuotaPersist> = match data.get(&l.handles[i].name) {
            Some(p) => Some(*p),
            None => None,
        };
        match saved {
            Some(p) => {
                if is_present && p.period_start == compute_period_start(now, l.handles[i].reset_day) {
                    let ghost hs = l.handles@;
                    let mut h: UserLimitHandle = l.handles[i].copy();
                    h.period_start = p.period_start;
                    h.period_used = p.period_bytes;
                    h.exhausted = h.quota_bytes != 0 && p.period_bytes >= h.quota_bytes;
                    l.handles.set(i, h);
                    proof {
                        assert(l.handles@ == hs.update(i as int, h));
                        assert forall|t: Seq<char>| #[trigger] l.users@.dom().contains(t) implies l.users@[t]
                            < l.handles@.len() && l.handles@[l.users@[t] as int].name@ == t by {
                            assert(hs[l.users@[t] as int].name@ == t);
                        }
                    }
                }
            },
            None => {},
        }
        i = i + 1;
    }
    assert(l.handles@ =~= changed(h0, l.users@, f));
    l.restored = data;
}

/// What was saved has been put back at this moment.
pub open spec fn restored_at(a: UserLimitsRegistry, b: UserLimitsRegistry, data: Map<Seq<char>, UserQuotaPersist>, now: u64) -> bool {
    b.handles@ == changed(a.handles@, a.users@, |h: UserLimitHandle| put_back_from(data, h, now))
}

/// Puts back what was saved, and keeps it for users that come later.
pub fn restore_persisted_quotas(l: &mut UserLimitsRegistry, data: Table<String, UserQuotaPersist>)
    requires
        old(l).wf(),
        data.wf(),
    ensures
        final(l).wf(),
        final(l).users == old(l).users,
        final(l).restored == data,
        exists|now: u64| #[trigger] restored_at(*old(l), *final(l), data@, now),
{
    let now: u64 = current_unix_time();
    let ghost d = data@;
    restore_persisted_quotas_at(l, data, now);
    assert(restored_at(*old(l), *l, d, now));
}

/// Whether a user has used up the quota. The default user has none.
pub fn is_user_exhausted(l: &UserLimitsRegistry, name: &str) -> (r: bool)
    requires
        l.wf(),
    ensures
        r == (name@ != "default"@ && l.users@.dom().contains(name@) && l.handles@[l.users@[name@] as int].exhausted),
{
    if same_text(name, "default") {
        return false;
    }
    match get_user_limit(l, name) {
        Some(i) => l.handles[i].is_exhausted(),
        None => false,
    }
}

/// What a user has used of the present period, when that began, and whether the quota is used up;
/// nothing for a user without limits.
pub fn get_user_period_stats(l: &UserLimitsRegistry, name: &str) -> (r: (u64, u64, bool))
    requires
        l.wf(),
    ensures
        r == (if l.users@.dom().contains(name@) {
            let h = l.handles@[l.users@[name@] as int];
            (h.period_used, h.period_start, h.exhausted)
        } else {
            (0u64, 0u64, false)
        }),
{
    match get_user_limit(l, name) {
        Some(i) => (l.handles[i].period_used, l.handles[i].period_start, l.handles[i].exhausted),
        None => (0, 0, false),
    }
}

/// A change of the configuration within a period keeps what a user has used, and judges it by the new
/// quota.
pub proof fn law_reload_keeps_usage(h: UserLimitHandle, u: MirageUser, now: u64, now_ns: u64)
    requires
        h.period_start == period_start(now, user_day(u)),
    ensures
        renewed(h, u, now, now_ns).period_used == h.period_used,
        renewed(h, u, now, now_ns).exhausted <==> used_up(user_quota(u), h.period_used),
{
}

/// What is saved of a user and put back in the same period is what the user had used.
pub proof fn law_saved_is_put_back(h: UserLimitHandle, now: u64)
    requires
        h.period_start == period_start(now, h.reset_day),
        h.exhausted == used_up(h.quota_bytes, h.period_used),
    ensures
        put_back(
            UserLimitHandle { period_used: 0, exhausted: false, ..h },
            UserQuotaPersist { period_bytes: h.period_used, period_start: h.period_start },
            now,
        ) == h,
{
}

/// Once used up, a quota stays used up however many bytes follow.
pub proof fn law_exhausted_stays(h: UserLimitHandle, n: usize)
    requires
        h.exhausted,
    ensures
        recorded(h, n).exhausted,
{
}

/// A user's place stays the same over a change of the configuration: connections that are open go on
/// counting against the same quota.
pub proof fn law_reload_keeps_place(
    users: Seq<MirageUser>,
    n: int,
    handles: Seq<UserLimitHandle>,
    before: Map<Seq<char>, usize>,
    restored: Map<Seq<char>, UserQuotaPersist>,
    now: u64,
    now_ns: u64,
    t: Seq<char>,
)
    requires
        0 <= n <= users.len(),
        before.dom().contains(t),
        rebuilt(users, n, handles, before, restored, now, now_ns).1.dom().contains(t),
    ensures
        rebuilt(users, n, handles, before, restored, now, now_ns).1[t] == before[t],
    decreases n,
{
    if n > 0 {
        let x = rebuilt(users, n - 1, handles, before, restored, now, now_ns);
        if x.1.dom().contains(t) {
            law_reload_keeps_place(users, n - 1, handles, before, restored, now, now_ns, t);
        }
    }
}

/// After the periods have been checked: a present user whose period changed has used nothing, is not
/// marked as used up, and is in the period of the moment; for one whose period has not changed nothing
/// changes. Either way a user is marked as used up exactly where there is a quota and no less than it
/// was used, if that was so before. The limits themselves stay, and so does everything that belongs to
/// no present user.
pub proof fn law_periods_checked(handles: Seq<UserLimitHandle>, users: Map<Seq<char>, usize>, now: u64, i: int)
    requires
        0 <= i < handles.len(),
    ensures
        ({
            let h = handles[i];
            let x = changed(handles, users, |h: UserLimitHandle| rolled(h, now))[i];
            let there = users.dom().contains(h.name@) && users[h.name@] == i;
            &&& x.name == h.name && x.buckets == h.buckets && x.quota_bytes == h.quota_bytes && x.reset_day == h.reset_day
            &&& !there ==> x == h
            &&& there ==> x.period_start == period_start(now, h.reset_day)
            &&& there && h.period_start == period_start(now, h.reset_day) ==> x == h
            &&& there && h.period_start != period_start(now, h.reset_day) ==> x.period_used == 0 && !x.exhausted
            &&& there && (h.exhausted <==> h.quota_bytes != 0 && h.period_used >= h.quota_bytes) ==> (x.exhausted
                <==> x.quota_bytes != 0 && x.period_used >= x.quota_bytes)
        }),
        changed(handles, users, |h: UserLimitHandle| rolled(h, now)).len() == handles.len(),
{
}

/// Checking the periods again at the same moment changes nothing more.
pub proof fn law_periods_checked_once(handles: Seq<UserLimitHandle>, users: Map<Seq<char>, usize>, now: u64)
    ensures
        ({
            let f = |h: UserLimitHandle| rolled(h, now);
            changed(changed(handles, users, f), users, f) == changed(handles, users, f)
        }),
{
    let f = |h: UserLimitHandle| rolled(h, now);
    let a = changed(handles, users, f);
    assert(changed(a, users, f) =~= a);
}

/// Bytes are counted against a quota one by one: what was used grows by as many, and the quota is used
/// up exactly where no less than it was used. Without a quota nothing is counted. Counting twice is
/// counting the sum.
pub proof fn law_bytes_counted(h: UserLimitHandle, n: usize, m: usize)
    requires
        h.exhausted <==> h.quota_bytes != 0 && h.period_used >= h.quota_bytes,
        h.period_used + n + m <= u64::MAX,
        n + m <= usize::MAX,
    ensures
        ({
            let x = recorded(h, n);
            &&& x.name == h.name && x.buckets == h.buckets && x.quota_bytes == h.quota_bytes && x.reset_day
                == h.reset_day && x.period_start == h.period_start
            &&& h.quota_bytes == 0 ==> x == h && !x.exhausted
            &&& h.quota_bytes != 0 ==> x.period_used == h.period_used + n
            &&& x.exhausted <==> x.quota_bytes != 0 && x.period_used >= x.quota_bytes
        }),
        recorded(recorded(h, n), m) == recorded(h, (n + m) as usize),
{
}

/// What is saved is put back in its own period only: then it is what was used, and the quota is used up
/// exactly where no less than it was used. Users of whom nothing is saved, or of another period, and
/// everything that belongs to no present user, stay as they are.
pub proof fn law_saved_counts_in_its_period(
    handles: Seq<UserLimitHandle>,
    users: Map<Seq<char>, usize>,
    data: Map<Seq<char>, UserQuotaPersist>,
    now: u64,
    i: int,
)
    requires
        0 <= i < handles.len(),
    ensures
        ({
            let h = handles[i];
            let x = changed(handles, users, |h: UserLimitHandle| put_back_from(data, h, now))[i];
            let there = users.dom().contains(h.name@) && users[h.name@] == i && data.dom().contains(h.name@)
                && data[h.name@].period_start == period_start(now, h.reset_day);
            &&& x.name == h.name && x.buckets == h.buckets && x.quota_bytes == h.quota_bytes && x.reset_day == h.reset_day
            &&& !there ==> x == h
            &&& there ==> x.period_start == data[h.name@].period_start && x.period_used == data[h.name@].period_bytes
            &&& there ==> (x.exhausted <==> h.quota_bytes != 0 && data[h.name@].period_bytes >= h.quota_bytes)
        }),
{
}

/// The users of a configuration, none of them twice.
pub open spec fn distinct_names(users: Seq<MirageUser>) -> bool {
    forall|i: int, j: int| 0 <= i < j < users.len() ==> (#[trigger] users[i]).name@ != (#[trigger] users[j]).name@
}

/// No two names lead to the same limits.
pub open spec fn distinct_places(before: Map<Seq<char>, usize>) -> bool {
    forall|s: Seq<char>, t: Seq<char>| #[trigger]
        before.dom().contains(s) && #[trigger] before.dom().contains(t) && s != t ==> before[s] != before[t]
}

/// Of a configuration exactly the users have limits, all but the default user.
pub proof fn law_all_users_limited(
    users: Seq<MirageUser>,
    n: int,
    handles: Seq<UserLimitHandle>,
    before: Map<Seq<char>, usize>,
    restored: Map<Seq<char>, UserQuotaPersist>,
    now: u64,
    now_ns: u64,
    t: Seq<char>,
)
    requires
        0 <= n <= users.len(),
    ensures
        rebuilt(users, n, handles, before, restored, now, now_ns).1.dom().contains(t) <==> t != "default"@ && exists|k: int|
            0 <= k < n && (#[trigger] users[k]).name@ == t,
    decreases n,
{
    if n > 0 {
        law_all_users_limited(users, n - 1, handles, before, restored, now, now_ns, t);
        if t == users[n - 1].name@ {
        } else if exists|k: int| 0 <= k < n && (#[trigger] users[k]).name@ == t {
            let k = choose|k: int| 0 <= k < n && (#[trigger] users[k]).name@ == t;
            assert(k < n - 1);
        }
    }
}

proof fn lemma_rebuilt_len(
    users: Seq<MirageUser>,
    n: int,
    handles: Seq<UserLimitHandle>,
    before: Map<Seq<char>, usize>,
    restored: Map<Seq<char>, UserQuotaPersist>,
    now: u64,
    now_ns: u64,
)
    requires
        0 <= n <= users.len(),
        names_right(handles, before),
    ensures
        handles.len() <= rebuilt(users, n, handles, before, restored, now, now_ns).0.len() <= handles.len() + n,
    decreases n,
{
    if n > 0 {
        lemma_rebuilt_len(users, n - 1, handles, before, restored, now, now_ns);
        let t = users[n - 1].name@;
        assert(before.dom().contains(t) ==> before[t] < handles.len());
    }
}

proof fn lemma_untouched(
    users: Seq<MirageUser>,
    n: int,
    handles: Seq<UserLimitHandle>,
    before: Map<Seq<char>, usize>,
    restored: Map<Seq<char>, UserQuotaPersist>,
    now: u64,
    now_ns: u64,
    i: int,
)
    requires
        0 <= n <= users.len(),
        names_right(handles, before),
        0 <= i < handles.len(),
        forall|k: int| 0 <= k < n && before.dom().contains((#[trigger] users[k]).name@) ==> before[users[k].name@] != i,
    ensures
        rebuilt(users, n, handles, before, restored, now, now_ns).0[i] == handles[i],
    decreases n,
{
    if n > 0 {
        lemma_untouched(users, n - 1, handles, before, restored, now, now_ns, i);
        lemma_rebuilt_len(users, n - 1, handles, before, restored, now, now_ns);
        assert(before.dom().contains(users[n - 1].name@) ==> before[users[n - 1].name@] != i);
    }
}

/// What a configuration makes of a user's limits: the quota, and none where none is given; the day,
/// and the nearest that every month has; the period of the moment; what was used of that period as far
/// as it is known, from before or from what was saved; and the mark, exactly where there is a quota and
/// no less than it was used.
pub proof fn law_user_set_up(
    users: Seq<MirageUser>,
    n: int,
    handles: Seq<UserLimitHandle>,
    before: Map<Seq<char>, usize>,
    restored: Map<Seq<char>, UserQuotaPersist>,
    now: u64,
    now_ns: u64,
    k: int,
)
    requires
        0 <= k < n <= users.len(),
        distinct_names(users),
        distinct_places(before),
        names_right(handles, before),
        handles.len() + users.len() <= usize::MAX,
        users[k].name@ != "default"@,
    ensures
        ({
            let x = rebuilt(users, n, handles, before, restored, now, now_ns);
            let u = users[k];
            let t = u.name@;
            let h = x.0[x.1[t] as int];
            let day = match u.quota_reset_day {
                None => 1u8,
                Some(d) => if d == 0 {
                    1
                } else if d > 28 {
                    28
                } else {
                    d
                },
            };
            let start = period_start(now, day);
            &&& x.1[t] < x.0.len()
            &&& h.name@ == t
            &&& h.reset_day == day
            &&& h.period_start == start
            &&& u.quota_bytes is None ==> h.quota_bytes == 0
            &&& u.quota_bytes is Some ==> h.quota_bytes == u.quota_bytes->0
            &&& before.dom().contains(t) ==> x.1[t] == before[t] && h.period_used == if handles[before[t] as int].period_start
                == start {
                handles[before[t] as int].period_used
            } else {
                0
            }
            &&& !before.dom().contains(t) ==> x.1[t] >= handles.len() && h.period_used == if restored.dom().contains(t)
                && restored[t].period_start == start {
                restored[t].period_bytes
            } else {
                0
            }
            &&& h.exhausted <==> h.quota_bytes != 0 && h.period_used >= h.quota_bytes
        }),
    decreases n,
{
    let x = rebuilt(users, n - 1, handles, before, restored, now, now_ns);
    let u = users[n - 1];
    let t = users[k].name@;
    lemma_rebuilt_len(users, n - 1, handles, before, restored, now, now_ns);
    if k == n - 1 {
        if before.dom().contains(t) {
            assert forall|j: int| 0 <= j < n - 1 && before.dom().contains((#[trigger] users[j]).name@) implies before[users[j].name@]
                != before[t] by {
                assert(users[j].name@ != users[k].name@);
            }
            lemma_untouched(users, n - 1, handles, before, restored, now, now_ns, before[t] as int);
        }
    } else {
        law_user_set_up(users, n - 1, handles, before, restored, now, now_ns, k);
        assert(u.name@ != t);
        if before.dom().contains(u.name@) {
            assert(before[u.name@] < handles.len());
            assert(x.1[t] != before[u.name@]);
        }
    }
}

/// The rate of a user after a change of the configuration: where it is the same the buckets stay as
/// full as they were; where it is another one they are full buckets of that rate; without a rate there
/// are none. A thousand bits per second are a hundred and twenty-five bytes.
pub proof fn law_rate_after_reload(h: UserLimitHandle, u: MirageUser, now: u64, now_ns: u64)
    ensures
        ({
            let b = renewed(h, u, now, now_ns).buckets;
            let k = match u.rate_limit_kbps {
                Some(x) => x,
                None => 0,
            };
            &&& k == 0 <==> b is None
            &&& 0 < k <= 0x1_0000_0000 && h.buckets is Some && (h.buckets->0).up.rate == 125 * k ==> b == h.buckets
            &&& 0 < k <= 0x1_0000_0000 && (h.buckets is None || (h.buckets->0).up.rate != 125 * k) ==> (b matches Some(x)
                && x.up.rate == 125 * k && x.down.rate == 125 * k && x.up.tokens == x.up.burst && x.down.tokens
                == x.down.burst && x.up.last_ns == now_ns && x.down.last_ns == now_ns)
        }),
{
}

/// What a user has used outlives a restart: what is saved of the users, given to a new registry, makes
/// up what each has used, where its period still lasts.
pub proof fn law_usage_outlives_restart(
    handles: Seq<UserLimitHandle>,
    users: Map<Seq<char>, usize>,
    u: MirageUser,
    now: u64,
    now_ns: u64,
)
    requires
        users.dom().contains(u.name@),
    ensures
        ({
            let h = handles[users[u.name@] as int];
            let x = created(u, saved_of(handles, users), now, now_ns);
            &&& h.period_start == x.period_start ==> x.period_used == h.period_used
            &&& h.period_start != x.period_start ==> x.period_used == 0
        }),
{
}

/// The registry after its periods were checked differs from the one before in the present users whose
/// period is over, and in nothing else: those are in the period of the moment and have used nothing.
pub proof fn law_registry_rolled(a: UserLimitsRegistry, b: UserLimitsRegistry, now: u64, i: int)
    requires
        rolled_over(a, b, now),
        0 <= i < a.handles@.len(),
    ensures
        b.handles@.len() == a.handles@.len(),
        ({
            let h = a.handles@[i];
            let x = b.handles@[i];
            let over = a.users@.dom().contains(h.name@) && a.users@[h.name@] == i && h.period_start != period_start(
                now,
                h.reset_day,
            );
            &&& !over ==> x == h
            &&& over ==> x.period_start == period_start(now, h.reset_day) && x.period_used == 0 && !x.exhausted
            &&& x.name == h.name && x.buckets == h.buckets && x.quota_bytes == h.quota_bytes && x.reset_day == h.reset_day
        }),
{
    law_periods_checked(a.handles@, a.users@, now, i);
}

} // verus!
