//! Limits on the rate of clients: which rate applies to an address, and the buckets that enforce it.

use vstd::prelude::*;

use crate::ip::{ip_text, parse_ip_str, IpAddr, IpView};
use crate::table::Table;

verus! {

/// The billionth parts of a byte, in which buckets are filled.
pub const NANO: u128 = 1_000_000_000;

/// The least that a bucket holds, in bytes.
pub const MIN_BURST: u128 = 65536;

/// A bucket: its rate in bytes per second, how much it holds, what is in it, and when that was worked
/// out, in nanoseconds. Contents are in billionth parts of a byte.
#[derive(Clone, Copy, PartialEq, Eq, Structural, Debug)]
pub struct TokenBucket {
    pub rate: u64,
    pub burst: u128,
    pub tokens: u128,
    pub last_ns: u64,
}

/// What a bucket grants.
#[derive(Clone, Copy, PartialEq, Eq, Structural, Debug)]
pub enum Grant {
    /// All that was asked for.
    Done,
    /// What it held; so much is still wanted, and worth asking for after so many nanoseconds.
    Wait(u128, u128),
}

/// How much a bucket of a rate holds: what comes in half a second, and no less than the minimum.
pub open spec fn burst_of(rate: int) -> int {
    if rate * 500_000_000 < MIN_BURST * NANO {
        MIN_BURST * NANO
    } else {
        rate * 500_000_000
    }
}

/// What is in a bucket at a later time.
pub open spec fn filled(b: TokenBucket, now_ns: u64) -> int {
    let elapsed = if now_ns > b.last_ns {
        now_ns - b.last_ns
    } else {
        0
    };
    let t = b.tokens + elapsed * b.rate;
    if t > b.burst {
        b.burst as int
    } else {
        t
    }
}

/// What a bucket grants of `need`, and what is in it then.
pub open spec fn granted(b: TokenBucket, need: u128, now_ns: u64) -> (TokenBucket, Grant) {
    let t = filled(b, now_ns);
    if t >= need {
        (TokenBucket { tokens: (t - need) as u128, last_ns: now_ns, ..b }, Grant::Done)
    } else {
        let rest = need - t;
        (
            TokenBucket { tokens: 0, last_ns: now_ns, ..b },
            Grant::Wait(rest as u128, ((rest + b.rate - 1) / b.rate as int) as u128),
        )
    }
}

impl TokenBucket {
    /// The bucket fills, and holds no more than it can.
    pub open spec fn wf(&self) -> bool {
        &&& self.rate >= 1
        &&& self.burst == burst_of(self.rate as int)
        &&& self.tokens <= self.burst
    }

    /// A full bucket. A rate of zero counts as one.
    pub fn new(rate_bytes_per_sec: u64, now_ns: u64) -> (r: TokenBucket)
        ensures
            r.wf(),
            r.rate == (if rate_bytes_per_sec == 0 {
                1
            } else {
                rate_bytes_per_sec
            }),
            r.tokens == r.burst,
            r.last_ns == now_ns,
    {
        let rate: u64 = if rate_bytes_per_sec == 0 {
            1
        } else {
            rate_bytes_per_sec
        };
        let half: u128 = rate as u128 * 500_000_000;
        let burst: u128 = if half < MIN_BURST * NANO {
            MIN_BURST * NANO
        } else {
            half
        };
        TokenBucket { rate, burst, tokens: burst, last_ns: now_ns }
    }

    /// Takes out what is needed, or all there is.
    pub fn take(&mut self, need: u128, now_ns: u64) -> (r: Grant)
        requires
            old(self).wf(),
            need <= 0xffff_ffff_ffff_ffff_ffff_ffff,
        ensures
            final(self).wf(),
            (*final(self), r) == granted(*old(self), need, now_ns),
    {
        let elapsed: u64 = if now_ns > self.last_ns {
            now_ns - self.last_ns
        } else {
            0
        };
        assert(elapsed * self.rate <= 0xffff_ffff_ffff_ffff * 0xffff_ffff_ffff_ffff) by (nonlinear_arith)
            requires
                0 <= elapsed <= 0xffff_ffff_ffff_ffff,
                0 <= self.rate <= 0xffff_ffff_ffff_ffff,
        ;
        let came: u128 = elapsed as u128 * self.rate as u128;
        let t: u128 = if came > self.burst - self.tokens {
            self.burst
        } else {
            self.tokens + came
        };
        self.last_ns = now_ns;
        if t >= need {
            self.tokens = t - need;
            Grant::Done
        } else {
            let rest: u128 = need - t;
            self.tokens = 0;
            Grant::Wait(rest, (rest + (self.rate - 1) as u128) / self.rate as u128)
        }
    }
}

/// What `n` bytes need.
pub fn need_of(n: usize) -> (r: u128)
    ensures
        r == n * NANO,
        r <= 0xffff_ffff_ffff_ffff_ffff_ffff,
{
    n as u128 * NANO
}

/// No bytes come from nothing: what a bucket grants and what is left in it is no more than what was in
/// it and what has come since.
pub proof fn law_rate_kept(b: TokenBucket, need: u128, now_ns: u64)
    requires
        b.wf(),
        now_ns >= b.last_ns,
    ensures
        ({
            let g = granted(b, need, now_ns);
            let used = match g.1 {
                Grant::Done => need as int,
                Grant::Wait(rest, _) => need - rest,
            };
            used + g.0.tokens <= b.tokens + (now_ns - b.last_ns) * b.rate
        }),
{
    let t = filled(b, now_ns);
    assert((now_ns - b.last_ns) * b.rate >= 0) by (nonlinear_arith)
        requires
            now_ns >= b.last_ns,
    ;
}

/// Waiting as long as a bucket says is long enough: what is still wanted is granted then, where the
/// bucket can hold as much.
pub proof fn law_wait_suffices(b: TokenBucket, need: u128, now_ns: u64, later_ns: u64)
    requires
        b.wf(),
        granted(b, need, now_ns).1 is Wait,
        granted(b, need, now_ns).1->Wait_0 <= b.burst,
        later_ns >= now_ns + granted(b, need, now_ns).1->Wait_1,
    ensures
        granted(granted(b, need, now_ns).0, granted(b, need, now_ns).1->Wait_0, later_ns).1 is Done,
{
    let g = granted(b, need, now_ns);
    let rest = need - filled(b, now_ns);
    let w = (rest + b.rate - 1) / b.rate as int;
    let r = b.rate as int;
    assert(filled(b, now_ns) >= 0) by {
        assert(b.tokens + (if now_ns > b.last_ns {
            now_ns - b.last_ns
        } else {
            0
        }) * b.rate >= 0) by (nonlinear_arith)
            requires
                b.tokens >= 0,
        ;
    }
    assert(0 <= w <= rest) by (nonlinear_arith)
        requires
            w == (rest + r - 1) / r,
            r >= 1,
            rest >= 1,
    ;
    assert(w * r >= rest) by (nonlinear_arith)
        requires
            w == (rest + r - 1) / r,
            r >= 1,
    ;
    let e = later_ns - now_ns;
    assert(e * r >= w * r) by (nonlinear_arith)
        requires
            e >= w,
            r >= 1,
    ;
    assert(w >= 1) by (nonlinear_arith)
        requires
            w * r >= rest,
            rest >= 1,
            r >= 1,
    ;
}

/// The buckets of a client: what it sends and what it receives.
#[derive(Clone, Copy, PartialEq, Eq, Structural, Debug)]
pub struct DeviceBuckets {
    pub up: TokenBucket,
    pub down: TokenBucket,
}

impl DeviceBuckets {
    /// Both buckets are in shape.
    pub open spec fn wf(&self) -> bool {
        self.up.wf() && self.down.wf()
    }

    /// Full buckets of the same rate.
    pub fn new(rate: u64, now_ns: u64) -> (r: DeviceBuckets)
        ensures
            r.wf(),
            r == fresh_buckets(rate, now_ns),
    {
        DeviceBuckets { up: TokenBucket::new(rate, now_ns), down: TokenBucket::new(rate, now_ns) }
    }
}

/// A full bucket of a rate.
pub open spec fn fresh_bucket(rate: u64, now_ns: u64) -> TokenBucket {
    let r = if rate == 0 {
        1
    } else {
        rate
    };
    TokenBucket { rate: r, burst: burst_of(r as int) as u128, tokens: burst_of(r as int) as u128, last_ns: now_ns }
}

/// Full buckets of a rate.
pub open spec fn fresh_buckets(rate: u64, now_ns: u64) -> DeviceBuckets {
    DeviceBuckets { up: fresh_bucket(rate, now_ns), down: fresh_bucket(rate, now_ns) }
}

/// A network: an address and the number of its leading bits that count.
#[derive(Clone, Copy, Debug)]
pub struct Net {
    pub addr: IpAddr,
    pub prefix: u8,
}

/// A network as a value.
#[verifier::ext_equal]
pub struct NetView {
    pub addr: IpView,
    pub prefix: u8,
}

impl View for Net {
    type V = NetView;

    open spec fn view(&self) -> NetView {
        NetView { addr: self.addr@, prefix: self.prefix }
    }
}

impl Net {
    /// No more bits count than there are.
    pub open spec fn wf(&self) -> bool {
        match self.addr {
            IpAddr::V4(_) => self.prefix <= 32,
            IpAddr::V6(_) => self.prefix <= 128,
        }
    }
}

/// An optional network as a value.
pub open spec fn opt_net(n: Option<Net>) -> Option<NetView> {
    match n {
        Some(x) => Some(x@),
        None => None,
    }
}

/// The network that a text stands for, as `ipnet` reads it: octets and prefix length.
pub uninterp spec fn net_text(s: Seq<char>) -> Option<(Seq<u8>, u8)>;

/// A network by its octets, four or sixteen.
pub open spec fn net_of(x: (Seq<u8>, u8)) -> NetView {
    NetView {
        addr: if x.0.len() == 4 {
            IpView::V4(x.0)
        } else {
            IpView::V6(x.0)
        },
        prefix: x.1,
    }
}

/// Calls `<ipnet::IpNet as FromStr>::from_str`. A network that it reads never has a longer prefix than
/// its address has bits.
#[verifier::external_body]
fn read_net(s: &str) -> (r: Option<Net>)
    ensures
        match net_text(s@) {
            None => r is None,
            Some(x) => (x.0.len() == 4 || x.0.len() == 16) && (r matches Some(n) && n.wf() && n@ == net_of(x)),
        },
{
    match s.parse::<ipnet::IpNet>() {
        Ok(ipnet::IpNet::V4(n)) => Some(Net { addr: IpAddr::V4(n.addr().octets()), prefix: n.prefix_len() }),
        Ok(ipnet::IpNet::V6(n)) => Some(Net { addr: IpAddr::V6(n.addr().octets()), prefix: n.prefix_len() }),
        Err(_) => None,
    }
}

/// What an octet is divided by so that only its first `r` bits count.
pub open spec fn divisor(r: int) -> int {
    if r <= 0 {
        256
    } else if r == 1 {
        128
    } else if r == 2 {
        64
    } else if r == 3 {
        32
    } else if r == 4 {
        16
    } else if r == 5 {
        8
    } else if r == 6 {
        4
    } else {
        2
    }
}

/// Two addresses agree in their first `p` bits.
pub open spec fn same_prefix(a: Seq<u8>, b: Seq<u8>, p: int) -> bool {
    &&& forall|i: int| 0 <= i < p / 8 ==> #[trigger] a[i] == b[i]
    &&& p % 8 != 0 ==> a[p / 8] as int / divisor(p % 8) == b[p / 8] as int / divisor(p % 8)
}

/// An address belongs to a network: it is of the same version and agrees in the bits that count.
pub open spec fn in_net(n: NetView, ip: IpView) -> bool {
    match (n.addr, ip) {
        (IpView::V4(a), IpView::V4(b)) => same_prefix(a, b, n.prefix as int),
        (IpView::V6(a), IpView::V6(b)) => same_prefix(a, b, n.prefix as int),
        _ => false,
    }
}

/// Calls `ipnet::IpNet::contains` for an address of version 4: whether it lies between the first and
/// the last address of the network, which is whether it agrees with it in the bits that count.
#[verifier::external_body]
fn v4_in_net(addr: &[u8; 4], prefix: u8, ip: &[u8; 4]) -> (r: bool)
    requires
        prefix <= 32,
    ensures
        r == same_prefix(addr@, ip@, prefix as int),
{
    let host: Option<ipnet::IpNet> = ipnet::IpNet::new((*ip).into(), 32).ok();
    let net: Option<ipnet::IpNet> = ipnet::IpNet::new((*addr).into(), prefix).ok();
    match (net, host) {
        (Some(n), Some(h)) => n.contains(&h.addr()),
        _ => false,
    }
}

/// Calls `ipnet::IpNet::contains` for an address of version 6: whether it lies between the first and
/// the last address of the network, which is whether it agrees with it in the bits that count.
#[verifier::external_body]
fn v6_in_net(addr: &[u8; 16], prefix: u8, ip: &[u8; 16]) -> (r: bool)
    requires
        prefix <= 128,
    ensures
        r == same_prefix(addr@, ip@, prefix as int),
{
    let host: Option<ipnet::IpNet> = ipnet::IpNet::new((*ip).into(), 128).ok();
    let net: Option<ipnet::IpNet> = ipnet::IpNet::new((*addr).into(), prefix).ok();
    match (net, host) {
        (Some(n), Some(h)) => n.contains(&h.addr()),
        _ => false,
    }
}

impl Net {
    /// Whether an address belongs to the network.
    pub fn contains(&self, ip: &IpAddr) -> (r: bool)
        requires
            self.wf(),
        ensures
            r == in_net(self@, ip@),
    {
        match (&self.addr, ip) {
            (IpAddr::V4(a), IpAddr::V4(b)) => v4_in_net(a, self.prefix, b),
            (IpAddr::V6(a), IpAddr::V6(b)) => v6_in_net(a, self.prefix, b),
            _ => false,
        }
    }
}

/// A network of one address.
pub open spec fn host_net(ip: IpView) -> NetView {
    NetView {
        addr: ip,
        prefix: match ip {
            IpView::V4(_) => 32u8,
            IpView::V6(_) => 128u8,
        },
    }
}

/// The network of a text: what it was read as, or else the address that it is.
pub open spec fn net_or_address(read: Option<NetView>, s: Seq<char>) -> Option<NetView> {
    match read {
        Some(n) => Some(n),
        None => match ip_text(s) {
            Some(ip) => Some(host_net(ip)),
            None => None,
        },
    }
}

/// The network of a text that was read as `read`: that one, or else the address that the text is.
pub fn or_address(read: Option<Net>, s: &str) -> (r: Option<Net>)
    requires
        read matches Some(n) ==> n.wf(),
    ensures
        opt_net(r) == net_or_address(opt_net(read), s@),
        r matches Some(n) ==> n.wf(),
{
    match read {
        Some(n) => Some(n),
        None => {
            match parse_ip_str(s) {
                Some(IpAddr::V4(o)) => Some(Net { addr: IpAddr::V4(o), prefix: 32 }),
                Some(IpAddr::V6(o)) => Some(Net { addr: IpAddr::V6(o), prefix: 128 }),
                None => None,
            }
        },
    }
}

/// The network that a text stands for.
pub open spec fn source_net(s: Seq<char>) -> Option<NetView> {
    net_or_address(
        match net_text(s) {
            Some(x) => Some(net_of(x)),
            None => None,
        },
        s,
    )
}

/// Reads a network, or a single address.
pub fn parse_source(s: &str) -> (r: Option<Net>)
    ensures
        opt_net(r) == source_net(s@),
        r matches Some(n) ==> n.wf(),
{
    let read: Option<Net> = read_net(s);
    or_address(read, s)
}

/// What is configured for devices: where they are, and how many kilobits per second they get.
pub struct DeviceProfile {
    pub source_ip_cidr: Vec<String>,
    pub profile: String,
    pub name: Option<String>,
    pub rate_limit_kbps: Option<u64>,
}

/// Kilobits per second as bytes per second.
pub open spec fn bytes_per_sec(kbps: u64) -> u64 {
    if kbps * 125 > u64::MAX {
        u64::MAX
    } else {
        (kbps * 125) as u64
    }
}

/// Converts kilobits per second to bytes per second.
pub fn to_bytes_per_sec(kbps: u64) -> (r: u64)
    ensures
        r == bytes_per_sec(kbps),
{
    match kbps.checked_mul(125) {
        Some(x) => x,
        None => u64::MAX,
    }
}

/// The networks among the first `n` texts, with a rate.
pub open spec fn nets_of(texts: Seq<String>, n: int, rate: u64) -> Seq<(NetView, u64)>
    decreases n,
{
    if n <= 0 {
        seq![]
    } else {
        match source_net(texts[n - 1]@) {
            Some(x) => nets_of(texts, n - 1, rate).push((x, rate)),
            None => nets_of(texts, n - 1, rate),
        }
    }
}

/// The limited networks of the first `n` profiles, in their order. A profile without a rate limits
/// nothing.
pub open spec fn limits_of(dps: Seq<DeviceProfile>, n: int) -> Seq<(NetView, u64)>
    decreases n,
{
    if n <= 0 {
        seq![]
    } else {
        let dp = dps[n - 1];
        match dp.rate_limit_kbps {
            Some(k) => if k > 0 {
                limits_of(dps, n - 1) + nets_of(
                    dp.source_ip_cidr@,
                    dp.source_ip_cidr@.len() as int,
                    bytes_per_sec(k),
                )
            } else {
                limits_of(dps, n - 1)
            },
            None => limits_of(dps, n - 1),
        }
    }
}

/// The rate of an address: that of the first network it belongs to.
pub open spec fn rate_of(limits: Seq<(NetView, u64)>, ip: IpView) -> Option<u64>
    decreases limits.len(),
{
    if limits.len() == 0 {
        None
    } else if in_net(limits[0].0, ip) {
        Some(limits[0].1)
    } else {
        rate_of(limits.drop_first(), ip)
    }
}

/// The limited networks, and the buckets of the addresses seen so far.
pub struct RateLimiter {
    pub cidrs: Vec<(Net, u64)>,
    pub live: Table<IpAddr, DeviceBuckets>,
}

/// Limits as values.
pub open spec fn limit_views(v: Seq<(Net, u64)>) -> Seq<(NetView, u64)> {
    Seq::new(v.len(), |i: int| (v[i].0@, v[i].1))
}

impl RateLimiter {
    /// Networks and buckets are in shape, and no address is listed twice.
    pub open spec fn wf(&self) -> bool {
        &&& self.live.wf()
        &&& forall|i: int| 0 <= i < self.cidrs@.len() ==> (#[trigger] self.cidrs@[i]).0.wf()
        &&& forall|k: IpView| #[trigger] self.live@.dom().contains(k) ==> self.live@[k].wf()
    }

    /// The limits of profiles.
    pub fn from_device_profiles(dps: &[DeviceProfile]) -> (r: RateLimiter)
        ensures
            r.wf(),
            limit_views(r.cidrs@) == limits_of(dps@, dps@.len() as int),
            r.live@ == Map::<IpView, DeviceBuckets>::empty(),
    {
        let mut cidrs: Vec<(Net, u64)> = Vec::new();
        let mut i: usize = 0;
        assert(limit_views(cidrs@) =~= seq![]);
        while i < dps.len()
            invariant
                i <= dps@.len(),
                limit_views(cidrs@) == limits_of(dps@, i as int),
                forall|k: int| 0 <= k < cidrs@.len() ==> (#[trigger] cidrs@[k]).0.wf(),
            decreases dps@.len() - i,
        {
            let kbps: u64 = match dps[i].rate_limit_kbps {
                Some(k) => k,
                None => 0,
            };
            if kbps > 0 {
                let rate: u64 = to_bytes_per_sec(kbps);
                let texts: &Vec<String> = &dps[i].source_ip_cidr;
                let ghost base = limit_views(cidrs@);
                let mut j: usize = 0;
                assert(base + nets_of(texts@, 0, rate) =~= base);
                while j < texts.len()
                    invariant
                        j <= texts@.len(),
                        limit_views(cidrs@) == base + nets_of(texts@, j as int, rate),
                        forall|k: int| 0 <= k < cidrs@.len() ==> (#[trigger] cidrs@[k]).0.wf(),
                    decreases texts@.len() - j,
                {
                    let ghost before = cidrs@;
                    match parse_source(texts[j].as_str()) {
                        Some(n) => {
                            cidrs.push((n, rate));
                            assert(limit_views(cidrs@) =~= limit_views(before).push((n@, rate)));
                        },
                        None => {},
                    }
                    assert(limit_views(cidrs@) =~= base + nets_of(texts@, j + 1, rate));
                    j = j + 1;
                }
            }
            i = i + 1;
        }
        RateLimiter { cidrs, live: Table::new() }
    }

    /// Whether nothing is limited.
    pub fn is_empty(&self) -> (r: bool)
        ensures
            r == (self.cidrs@.len() == 0),
    {
        self.cidrs.len() == 0
    }

    /// The rate of an address: that of the first network it belongs to.
    pub fn resolve(&self, ip: IpAddr) -> (r: Option<u64>)
        requires
            self.wf(),
        ensures
            r == rate_of(limit_views(self.cidrs@), ip@),
    {
        let mut i: usize = 0;
        let ghost v = limit_views(self.cidrs@);
        assert(v.skip(0) =~= v);
        while i < self.cidrs.len()
            invariant
                i <= self.cidrs@.len(),
                self.wf(),
                v == limit_views(self.cidrs@),
                rate_of(v, ip@) == rate_of(v.skip(i as int), ip@),
            decreases self.cidrs@.len() - i,
        {
            assert(v.skip(i as int)[0] == (self.cidrs@[i as int].0@, self.cidrs@[i as int].1));
            assert(v.skip(i as int).drop_first() =~= v.skip(i + 1));
            if self.cidrs[i].0.contains(&ip) {
                return Some(self.cidrs[i].1);
            }
            i = i + 1;
        }
        None
    }

    /// The place of the buckets of an address, which are made where they are needed; `None` where the
    /// address is not limited.
    pub fn buckets_for(&mut self, ip: IpAddr, now_ns: u64) -> (r: Option<usize>)
        requires
            old(self).wf(),
        ensures
            final(self).wf(),
            final(self).cidrs == old(self).cidrs,
            match rate_of(limit_views(old(self).cidrs@), ip@) {
                None => r is None && final(self).live == old(self).live,
                Some(rate) => (r matches Some(i) && i < final(self).live.keys().len() && final(self).live.keys()[i as int]
                    == ip@) && final(self).live@ == (if old(self).live@.dom().contains(ip@) {
                    old(self).live@
                } else {
                    old(self).live@.insert(ip@, fresh_buckets(rate, now_ns))
                }),
            },
    {
        match self.resolve(ip) {
            None => None,
            Some(rate) => {
                if !self.live.contains(&ip) {
                    self.live.insert(ip, DeviceBuckets::new(rate, now_ns));
                }
                self.live.find(&ip)
            },
        }
    }
}

/// The limits of the server's clients, once they are set.
pub struct ServerLimiter {
    pub limiter: Option<RateLimiter>,
}

/// Sets the limits of the server's clients.
pub fn set_server_limiter(s: &mut ServerLimiter, rl: RateLimiter)
    ensures
        final(s).limiter == Some(rl),
{
    s.limiter = Some(rl);
}

/// The place of the buckets of one of the server's clients; `None` where it is not limited.
pub fn server_buckets_for(s: &mut ServerLimiter, ip: IpAddr, now_ns: u64) -> (r: Option<usize>)
    requires
        old(s).limiter matches Some(rl) ==> rl.wf(),
    ensures
        final(s).limiter is Some <==> old(s).limiter is Some,
        match old(s).limiter {
            None => r is None,
            Some(rl) => final(s).limiter->0.wf() && final(s).limiter->0.cidrs == rl.cidrs && match rate_of(
                limit_views(rl.cidrs@),
                ip@,
            ) {
                None => r is None && final(s).limiter->0.live@ == rl.live@,
                Some(rate) => (r matches Some(i) && i < final(s).limiter->0.live.keys().len()
                    && final(s).limiter->0.live.keys()[i as int] == ip@) && final(s).limiter->0.live@ == (if rl.live@.dom().contains(
                    ip@,
                ) {
                    rl.live@
                } else {
                    rl.live@.insert(ip@, fresh_buckets(rate, now_ns))
                }),
            },
        },
{
    let mut limiter: Option<RateLimiter> = None;
    std::mem::swap(&mut limiter, &mut s.limiter);
    match limiter {
        None => None,
        Some(mut rl) => {
            let r: Option<usize> = rl.buckets_for(ip, now_ns);
            s.limiter = Some(rl);
            r
        },
    }
}

/// A bucket holds what comes in half a second, and no less than sixty-four kilobytes.
pub proof fn law_burst_size(rate: int)
    requires
        0 <= rate,
    ensures
        2 * burst_of(rate) >= rate * 1_000_000_000,
        burst_of(rate) >= 65_536_000_000_000,
        2 * burst_of(rate) == rate * 1_000_000_000 || burst_of(rate) == 65_536_000_000_000,
{
}

/// A bucket fills at its rate until it is full: what is granted and what is left in it make up exactly what
/// was in it and what has come since, or what it can hold where that is less. All of a need is granted
/// where there is enough for it, else all that there is.
pub proof fn law_grants_exact(b: TokenBucket, need: u128, now_ns: u64)
    requires
        b.wf(),
        now_ns >= b.last_ns,
        need <= 0xffff_ffff_ffff_ffff_ffff_ffff,
    ensures
        ({
            let have = b.tokens + (now_ns - b.last_ns) * b.rate;
            let full = if have < b.burst {
                have
            } else {
                b.burst as int
            };
            let g = granted(b, need, now_ns);
            &&& g.1 is Done <==> full >= need
            &&& g.1 is Done ==> g.0.tokens == full - need
            &&& g.1 is Wait ==> g.0.tokens == 0 && g.1->Wait_0 == need - full
            &&& g.0.rate == b.rate && g.0.burst == b.burst && g.0.last_ns == now_ns
        }),
{
    assert((now_ns - b.last_ns) * b.rate >= 0) by (nonlinear_arith)
        requires
            now_ns >= b.last_ns,
    ;
}

/// A clock that goes backwards fills nothing.
pub proof fn law_backward_clock(b: TokenBucket, now_ns: u64)
    requires
        b.wf(),
        now_ns <= b.last_ns,
    ensures
        filled(b, now_ns) == b.tokens,
{
}

/// A new bucket is full, and its rate is the one asked for, or one where that is zero.
pub proof fn law_new_bucket_full(rate: u64, now_ns: u64)
    ensures
        fresh_bucket(rate, now_ns).tokens == fresh_bucket(rate, now_ns).burst,
        fresh_bucket(rate, now_ns).last_ns == now_ns,
        rate > 0 ==> fresh_bucket(rate, now_ns).rate == rate,
        fresh_bucket(0, now_ns).rate == 1,
        fresh_buckets(rate, now_ns).up == fresh_buckets(rate, now_ns).down,
        fresh_buckets(rate, now_ns).up == fresh_bucket(rate, now_ns),
{
}

/// Two addresses agree in one bit more exactly where they also agree in that bit; all agree in none.
pub proof fn law_prefix_bit_by_bit(a: Seq<u8>, b: Seq<u8>, p: int)
    requires
        a.len() == b.len(),
        0 <= p < 8 * a.len(),
    ensures
        same_prefix(a, b, 0),
        ({
            let d = if p % 8 == 0 {
                128
            } else if p % 8 == 1 {
                64
            } else if p % 8 == 2 {
                32
            } else if p % 8 == 3 {
                16
            } else if p % 8 == 4 {
                8
            } else if p % 8 == 5 {
                4
            } else if p % 8 == 6 {
                2
            } else {
                1int
            };
            same_prefix(a, b, p + 1) <==> same_prefix(a, b, p) && (a[p / 8] as int / d) % 2 == (b[p / 8] as int / d) % 2
        }),
{
    let k = p / 8;
    let x = a[k] as int;
    let y = b[k] as int;
    if p % 8 == 7 {
        assert((p + 1) / 8 == k + 1 && (p + 1) % 8 == 0);
        assert(x / 2 == y / 2 && x % 2 == y % 2 <==> x == y);
        assert(x / 1 == x && y / 1 == y);
        if same_prefix(a, b, p + 1) {
            assert(a[k] == b[k]);
            assert forall|i: int| 0 <= i < k implies #[trigger] a[i] == b[i] by {}
        }
    } else {
        assert((p + 1) / 8 == k && (p + 1) % 8 == p % 8 + 1);
        if p % 8 == 0 {
            assert(x / 128 < 2 && y / 128 < 2);
        }
    }
}

/// An address is limited by the first network that it belongs to, and not at all where it belongs to none.
pub proof fn law_first_network_counts(a: Seq<(NetView, u64)>, n: NetView, rate: u64, b: Seq<(NetView, u64)>, ip: IpView)
    requires
        forall|i: int| 0 <= i < a.len() ==> !in_net((#[trigger] a[i]).0, ip),
    ensures
        rate_of(a, ip) is None,
        in_net(n, ip) ==> rate_of(a + seq![(n, rate)] + b, ip) == Some(rate),
    decreases a.len(),
{
    let s = a + seq![(n, rate)] + b;
    if a.len() > 0 {
        let t = a.drop_first();
        assert(!in_net(a[0].0, ip));
        assert forall|i: int| 0 <= i < t.len() implies !in_net((#[trigger] t[i]).0, ip) by {
            assert(t[i] == a[i + 1]);
        }
        law_first_network_counts(t, n, rate, b, ip);
        assert(s.drop_first() =~= t + seq![(n, rate)] + b);
        assert(s[0] == a[0]);
    }
}

/// An address of one version belongs to no network of the other.
pub proof fn law_versions_apart(a: Seq<u8>, b: Seq<u8>, prefix: u8)
    ensures
        !in_net(NetView { addr: IpView::V4(a), prefix }, IpView::V6(b)),
        !in_net(NetView { addr: IpView::V6(a), prefix }, IpView::V4(b)),
{
}

/// A single address is a network that only it belongs to.
pub proof fn law_host_network(a: Seq<u8>, b: Seq<u8>)
    requires
        a.len() == 4 || a.len() == 16,
        a.len() == b.len(),
    ensures
        a.len() == 4 ==> (in_net(host_net(IpView::V4(a)), IpView::V4(b)) <==> a == b),
        a.len() == 16 ==> (in_net(host_net(IpView::V6(a)), IpView::V6(b)) <==> a == b),
{
    if forall|i: int| 0 <= i < a.len() ==> #[trigger] a[i] == b[i] {
        assert(a =~= b);
    }
}

/// A thousand bits per second are a hundred and twenty-five bytes, as far as a number goes.
pub proof fn law_kilobits(k: u64)
    ensures
        125 * k <= u64::MAX ==> bytes_per_sec(k) == 125 * k,
        125 * k > u64::MAX ==> bytes_per_sec(k) == u64::MAX,
{
}

/// The networks of a profile are those of its texts that are networks or addresses, in their order and each
/// with the profile's rate; a profile without a rate, or with the rate zero, limits nothing, and the
/// profiles follow each other in their order.
pub proof fn law_profiles_in_order(texts: Seq<String>, n: int, rate: u64, dps: Seq<DeviceProfile>, m: int)
    requires
        0 < n <= texts.len(),
        0 < m <= dps.len(),
    ensures
        source_net(texts[n - 1]@) matches Some(x) ==> nets_of(texts, n, rate) == nets_of(texts, n - 1, rate) + seq![(x, rate)],
        source_net(texts[n - 1]@) is None ==> nets_of(texts, n, rate) == nets_of(texts, n - 1, rate),
        nets_of(texts, 0, rate) == Seq::<(NetView, u64)>::empty(),
        dps[m - 1].rate_limit_kbps is None || dps[m - 1].rate_limit_kbps == Some(0u64) ==> limits_of(dps, m) == limits_of(
            dps,
            m - 1,
        ),
        dps[m - 1].rate_limit_kbps matches Some(k) ==> 0 < k <= 0x1_0000_0000 ==> limits_of(dps, m) == limits_of(dps, m - 1)
            + nets_of(dps[m - 1].source_ip_cidr@, dps[m - 1].source_ip_cidr@.len() as int, (125 * k) as u64),
        limits_of(dps, 0) == Seq::<(NetView, u64)>::empty(),
{
    match source_net(texts[n - 1]@) {
        Some(x) => {
            assert(nets_of(texts, n - 1, rate).push((x, rate)) =~= nets_of(texts, n - 1, rate) + seq![(x, rate)]);
        },
        None => {},
    }
}

} // verus!
