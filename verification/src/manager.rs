//! The outbounds of a configuration: how they are built from it, in which order, and what happens to
//! a configuration whose references lead nowhere.

use vstd::prelude::*;

use crate::b64::base64_decoded;
use crate::ip::{ip_text, parse_ip_str, IpAddr, IpView};
use crate::outbound::{
    healthy, latency, latency_of, leaf, ordered, picked, resolve, GroupState, OutboundNode,
};
use crate::pool::{
    min_size, BrutalState, PoolConfig, PoolMetrics, WarmPool, DEFAULT_RATE, MIN_TARGET_FLOOR,
};
use crate::shadowsocks::{lower_text, method_text, Method, SsConfig, SsError};
use crate::table::Table;
use crate::text::{chars_of, same_text, trimmed};
use crate::wg::{decode_wg_key, key_of, WgConfig};

verus! {

/// What is configured for one outbound.
#[derive(Debug)]
pub enum OutboundConfig {
    Mirage {
        tag: String,
        server: String,
        server_port: u16,
        password: String,
        camouflage_host: String,
        pool_size: usize,
        brutal_rate_mbps: Option<u64>,
        brutal_base_rtt_ms: Option<u64>,
        pfs: bool,
        underlying: Option<String>,
    },
    Wireguard {
        tag: String,
        private_key: String,
        peer_public_key: String,
        preshared_key: Option<String>,
        endpoint: String,
        address: String,
        mtu: usize,
        persistent_keepalive: Option<u16>,
        dns: Option<String>,
    },
    Direct { tag: String },
    Block { tag: String },
    Shadowsocks {
        tag: String,
        server: String,
        server_port: u16,
        method: String,
        password: String,
        underlying: Option<String>,
    },
    Urltest {
        tag: String,
        outbounds: Vec<String>,
        interval: u64,
        tolerance: u64,
        url: String,
        test_type: String,
    },
    Fallback { tag: String, outbounds: Vec<String>, interval: u64, url: String },
    Selector { tag: String, outbounds: Vec<String> },
    LoadBalance { tag: String, outbounds: Vec<String>, interval: u64, url: String },
}

/// The bytes per second of a megabit per second.
pub const BYTES_PER_MBPS: u64 = 125_000;

/// Texts as sequences of characters.
pub open spec fn texts(v: Seq<String>) -> Seq<Seq<char>> {
    Seq::new(v.len(), |i: int| v[i]@)
}

impl OutboundConfig {
    /// The name of the outbound.
    pub open spec fn name(&self) -> Seq<char> {
        match *self {
            OutboundConfig::Mirage { tag, .. } => tag@,
            OutboundConfig::Wireguard { tag, .. } => tag@,
            OutboundConfig::Direct { tag } => tag@,
            OutboundConfig::Block { tag } => tag@,
            OutboundConfig::Shadowsocks { tag, .. } => tag@,
            OutboundConfig::Urltest { tag, .. } => tag@,
            OutboundConfig::Fallback { tag, .. } => tag@,
            OutboundConfig::Selector { tag, .. } => tag@,
            OutboundConfig::LoadBalance { tag, .. } => tag@,
        }
    }

    /// Whether the outbound has to wait for others: it is a group, or another outbound carries it.
    pub open spec fn waits(&self) -> bool {
        match *self {
            OutboundConfig::Mirage { underlying, .. } => underlying is Some,
            OutboundConfig::Shadowsocks { underlying, .. } => underlying is Some,
            OutboundConfig::Urltest { .. } => true,
            OutboundConfig::Fallback { .. } => true,
            OutboundConfig::Selector { .. } => true,
            OutboundConfig::LoadBalance { .. } => true,
            _ => false,
        }
    }

    /// The names of the outbounds that this one refers to.
    pub open spec fn refs(&self) -> Seq<Seq<char>> {
        match *self {
            OutboundConfig::Mirage { underlying: Some(u), .. } => seq![u@],
            OutboundConfig::Shadowsocks { underlying: Some(u), .. } => seq![u@],
            OutboundConfig::Urltest { outbounds, .. } => texts(outbounds@),
            OutboundConfig::Fallback { outbounds, .. } => texts(outbounds@),
            OutboundConfig::Selector { outbounds, .. } => texts(outbounds@),
            OutboundConfig::LoadBalance { outbounds, .. } => texts(outbounds@),
            _ => seq![],
        }
    }

    /// The address that health checks fetch, and their interval; without a check the interval is
    /// zero or the address empty.
    pub open spec fn check(&self) -> (Seq<char>, u64) {
        match *self {
            OutboundConfig::Urltest { interval, url, .. } => (url@, interval),
            OutboundConfig::Fallback { interval, url, .. } => (url@, interval),
            OutboundConfig::LoadBalance { interval, url, .. } => (url@, interval),
            _ => (seq![], 0),
        }
    }

    /// The configured rate can be expressed in bytes per second.
    pub open spec fn rate_fits(&self) -> bool {
        match *self {
            OutboundConfig::Mirage { brutal_rate_mbps: Some(m), .. } => m * BYTES_PER_MBPS <= u64::MAX,
            _ => true,
        }
    }
}

/// The peer of a tunnel, as values.
#[verifier::ext_equal]
pub struct PeerView {
    pub private_key: Seq<u8>,
    pub peer_public_key: Seq<u8>,
    pub preshared_key: Option<Seq<u8>>,
    pub endpoint: Seq<char>,
    pub address: IpView,
    pub mtu: usize,
    pub persistent_keepalive: Option<u16>,
    pub dns: Option<IpView>,
}

/// An outbound as it is configured, with its references resolved.
#[verifier::ext_equal]
pub enum NodeView {
    Mirage {
        tag: Seq<char>,
        host: Seq<char>,
        port: u16,
        password: Seq<char>,
        camouflage: Seq<char>,
        pool_size: usize,
        pfs: bool,
        below: Option<usize>,
        rate: Option<int>,
        base_rtt: Option<u64>,
    },
    Wireguard { tag: Seq<char>, peer: PeerView },
    Direct { tag: Seq<char> },
    Block { tag: Seq<char> },
    Shadowsocks {
        tag: Seq<char>,
        host: Seq<char>,
        port: u16,
        password: Seq<char>,
        method: Method,
        block_udp: bool,
        below: Option<usize>,
    },
    Urltest { tag: Seq<char>, children: Seq<usize>, tolerance: u64, test_type: Seq<char> },
    Fallback { tag: Seq<char>, children: Seq<usize> },
    Selector { tag: Seq<char>, children: Seq<usize> },
    LoadBalance { tag: Seq<char>, children: Seq<usize> },
}

/// An optional key as bytes.
pub open spec fn opt_key(k: Option<[u8; 32]>) -> Option<Seq<u8>> {
    match k {
        Some(b) => Some(b@),
        None => None,
    }
}

/// A peer as values.
pub open spec fn peer_view(c: WgConfig) -> PeerView {
    PeerView {
        private_key: c.private_key@,
        peer_public_key: c.peer_public_key@,
        preshared_key: opt_key(c.preshared_key),
        endpoint: c.endpoint@,
        address: c.address@,
        mtu: c.mtu,
        persistent_keepalive: c.persistent_keepalive,
        dns: match c.dns {
            Some(a) => Some(a@),
            None => None,
        },
    }
}

/// A rate as a number.
pub open spec fn opt_rate(r: Option<u64>) -> Option<int> {
    match r {
        Some(x) => Some(x as int),
        None => None,
    }
}

/// An outbound as values.
pub open spec fn node_view(n: OutboundNode) -> NodeView {
    match n {
        OutboundNode::Mirage { tag, cfg, brutal, .. } => NodeView::Mirage {
            tag: tag@,
            host: cfg.server_host@,
            port: cfg.server_port,
            password: cfg.password@,
            camouflage: cfg.camouflage_host@,
            pool_size: cfg.pool_size,
            pfs: cfg.pfs,
            below: cfg.underlying,
            rate: opt_rate(brutal.configured_rate),
            base_rtt: brutal.base_rtt,
        },
        OutboundNode::Wireguard { tag, peer } => NodeView::Wireguard { tag: tag@, peer: peer_view(peer) },
        OutboundNode::Direct { tag } => NodeView::Direct { tag: tag@ },
        OutboundNode::Block { tag } => NodeView::Block { tag: tag@ },
        OutboundNode::Shadowsocks { tag, server, underlying } => NodeView::Shadowsocks {
            tag: tag@,
            host: server.server@,
            port: server.port,
            password: server.password@,
            method: server.method,
            block_udp: server.block_udp,
            below: underlying,
        },
        OutboundNode::Urltest { tag, children, tolerance_ms, test_type } => NodeView::Urltest {
            tag: tag@,
            children: children@,
            tolerance: tolerance_ms,
            test_type: test_type@,
        },
        OutboundNode::Fallback { tag, children } => NodeView::Fallback { tag: tag@, children: children@ },
        OutboundNode::Selector { tag, children } => NodeView::Selector { tag: tag@, children: children@ },
        OutboundNode::LoadBalance { tag, children } => NodeView::LoadBalance { tag: tag@, children: children@ },
    }
}

/// Nothing has been measured of an outbound yet; its pool, if it has one, is empty, aims at the floor
/// or at its maximum, and may start to build at `now_ms`.
pub open spec fn untouched(n: OutboundNode, now_ms: u64) -> bool {
    match n {
        OutboundNode::Mirage { brutal, pool, cfg, server_ip, rtt_ms, snd_cwnd, total_retrans, total_segs_out, .. } => {
            &&& brutal.wf()
            &&& brutal.active() == Set::<i32>::empty()
            &&& brutal.current_rate == match brutal.configured_rate {
                Some(x) => x,
                None => DEFAULT_RATE,
            }
            &&& pool.wf()
            &&& pool.queue@.len() == 0
            &&& pool.in_flight == 0
            &&& pool.pool_size == cfg.pool_size
            &&& pool.target == min_size(MIN_TARGET_FLOOR, cfg.pool_size)
            &&& pool.next_build_ms == now_ms
            &&& pool.metrics == (PoolMetrics { wait_events: 0, total_gets: 0, expired_unused: 0 })
            &&& pool.stats.consecutive_failures == 0
            &&& pool.stats.latency_samples@.len() == 0
            &&& pool.stats.last_sample_time is None
            &&& server_ip is None
            &&& rtt_ms == u64::MAX
            &&& snd_cwnd == 0
            &&& total_retrans == u64::MAX
            &&& total_segs_out == u64::MAX
        },
        _ => true,
    }
}

/// The decoded key of a text, where it is one.
pub open spec fn wg_key(text: Seq<char>) -> Option<Seq<u8>> {
    match key_of(base64_decoded(trimmed(text))) {
        Ok(k) => Some(k),
        Err(_) => None,
    }
}

/// The peer that is configured; `None` where a key or an address is none.
pub open spec fn configured_peer(c: OutboundConfig) -> Option<PeerView> {
    match c {
        OutboundConfig::Wireguard {
            private_key,
            peer_public_key,
            preshared_key,
            endpoint,
            address,
            mtu,
            persistent_keepalive,
            dns,
            ..
        } => {
            let psk_ok = preshared_key is None || wg_key(preshared_key->0@) is Some;
            let dns_ok = dns is None || ip_text(dns->0@) is Some;
            if wg_key(private_key@) is Some && wg_key(peer_public_key@) is Some && psk_ok && ip_text(address@) is Some
                && dns_ok {
                Some(
                    PeerView {
                        private_key: wg_key(private_key@)->0,
                        peer_public_key: wg_key(peer_public_key@)->0,
                        preshared_key: match preshared_key {
                            Some(k) => wg_key(k@),
                            None => None,
                        },
                        endpoint: endpoint@,
                        address: ip_text(address@)->0,
                        mtu,
                        persistent_keepalive,
                        dns: match dns {
                            Some(d) => ip_text(d@),
                            None => None,
                        },
                    },
                )
            } else {
                None
            }
        },
        _ => None,
    }
}

/// The outbound of a configuration whose references are at these places; the name of the cipher
/// where there is no such cipher. A tunnel whose keys or addresses are wrong becomes an outbound
/// that refuses every connection.
pub open spec fn made(c: OutboundConfig, at: Seq<usize>) -> Result<NodeView, Seq<char>> {
    match c {
        OutboundConfig::Mirage {
            tag,
            server,
            server_port,
            password,
            camouflage_host,
            pool_size,
            brutal_rate_mbps,
            brutal_base_rtt_ms,
            pfs,
            ..
        } => Ok(
            NodeView::Mirage {
                tag: tag@,
                host: server@,
                port: server_port,
                password: password@,
                camouflage: camouflage_host@,
                pool_size,
                pfs,
                below: if at.len() > 0 {
                    Some(at[0])
                } else {
                    None
                },
                rate: match brutal_rate_mbps {
                    Some(m) => Some(m * BYTES_PER_MBPS),
                    None => None,
                },
                base_rtt: brutal_base_rtt_ms,
            },
        ),
        OutboundConfig::Wireguard { tag, .. } => match configured_peer(c) {
            Some(peer) => Ok(NodeView::Wireguard { tag: tag@, peer }),
            None => Ok(NodeView::Block { tag: tag@ }),
        },
        OutboundConfig::Direct { tag } => Ok(NodeView::Direct { tag: tag@ }),
        OutboundConfig::Block { tag } => Ok(NodeView::Block { tag: tag@ }),
        OutboundConfig::Shadowsocks { tag, server, server_port, method, password, .. } => match method_text(method@) {
            None => Err(lower_text(method@)),
            Some(m) => Ok(
                NodeView::Shadowsocks {
                    tag: tag@,
                    host: server@,
                    port: server_port,
                    password: password@,
                    method: m,
                    block_udp: true,
                    below: if at.len() > 0 {
                        Some(at[0])
                    } else {
                        None
                    },
                },
            ),
        },
        OutboundConfig::Urltest { tag, tolerance, test_type, .. } => Ok(
            NodeView::Urltest { tag: tag@, children: at, tolerance, test_type: test_type@ },
        ),
        OutboundConfig::Fallback { tag, .. } => Ok(NodeView::Fallback { tag: tag@, children: at }),
        OutboundConfig::Selector { tag, .. } => Ok(NodeView::Selector { tag: tag@, children: at }),
        OutboundConfig::LoadBalance { tag, .. } => Ok(NodeView::LoadBalance { tag: tag@, children: at }),
    }
}

/// A health check that has to run: which outbound, what is fetched, and how often in seconds.
#[verifier::ext_equal]
pub struct CheckView {
    pub node: usize,
    pub url: Seq<char>,
    pub interval: u64,
}

/// What has been built: the outbounds, where the one of each name is, and the health checks.
#[verifier::ext_equal]
pub struct Built {
    pub nodes: Seq<NodeView>,
    pub index: Map<Seq<char>, usize>,
    pub checks: Seq<CheckView>,
}

/// The places of the outbounds that a configuration refers to.
pub open spec fn places(b: Built, c: OutboundConfig) -> Seq<usize> {
    Seq::new(c.refs().len(), |i: int| b.index[c.refs()[i]])
}

/// Every outbound that a configuration refers to is there.
pub open spec fn ready(b: Built, c: OutboundConfig) -> bool {
    forall|i: int| 0 <= i < c.refs().len() ==> b.index.dom().contains(#[trigger] c.refs()[i])
}

/// The health checks for the first `n` members in `at`: those that are servers.
pub open spec fn checks_for(nodes: Seq<NodeView>, at: Seq<usize>, n: int, url: Seq<char>, interval: u64) -> Seq<CheckView>
    decreases n,
{
    if n <= 0 || interval == 0 || url.len() == 0 {
        seq![]
    } else {
        let s = checks_for(nodes, at, n - 1, url, interval);
        if nodes[at[n - 1] as int] is Mirage {
            s.push(CheckView { node: at[n - 1], url, interval })
        } else {
            s
        }
    }
}

/// What is built once a configuration has been added.
pub open spec fn added(b: Built, c: OutboundConfig) -> Result<Built, Seq<char>> {
    match made(c, places(b, c)) {
        Err(e) => Err(e),
        Ok(n) => Ok(
            Built {
                nodes: b.nodes.push(n),
                index: b.index.insert(c.name(), b.nodes.len() as usize),
                checks: b.checks + checks_for(
                    b.nodes,
                    places(b, c),
                    places(b, c).len() as int,
                    c.check().0,
                    c.check().1,
                ),
            },
        ),
    }
}

/// What the first `n` configurations give that wait for no other outbound.
pub open spec fn first_pass(cfgs: Seq<OutboundConfig>, n: int) -> Result<Built, Seq<char>>
    decreases n,
{
    if n <= 0 {
        Ok(Built { nodes: seq![], index: Map::empty(), checks: seq![] })
    } else {
        match first_pass(cfgs, n - 1) {
            Err(e) => Err(e),
            Ok(b) => if cfgs[n - 1].waits() {
                Ok(b)
            } else {
                added(b, cfgs[n - 1])
            },
        }
    }
}

/// The places of those among the first `n` configurations that wait for another outbound.
pub open spec fn waiting(cfgs: Seq<OutboundConfig>, n: int) -> Seq<usize>
    decreases n,
{
    if n <= 0 {
        seq![]
    } else if cfgs[n - 1].waits() {
        waiting(cfgs, n - 1).push((n - 1) as usize)
    } else {
        waiting(cfgs, n - 1)
    }
}

/// Adds an outbound that is always there, unless one of its name is configured.
pub open spec fn with_default(b: Built, node: NodeView, name: Seq<char>) -> Built {
    if b.index.dom().contains(name) {
        b
    } else {
        Built {
            nodes: b.nodes.push(node),
            index: b.index.insert(name, b.nodes.len() as usize),
            checks: b.checks,
        }
    }
}

/// Adds the outbounds that are always there: one that connects directly and one that refuses.
pub open spec fn with_defaults(b: Built) -> Built {
    with_default(
        with_default(b, NodeView::Direct { tag: "direct"@ }, "direct"@),
        NodeView::Block { tag: "block"@ },
        "block"@,
    )
}

/// One round over the first `n` waiting configurations: those whose references are there are added,
/// and the others wait on.
pub open spec fn one_round(cfgs: Seq<OutboundConfig>, pending: Seq<usize>, b: Built, n: int) -> Result<
    (Built, Seq<usize>),
    Seq<char>,
>
    decreases n,
{
    if n <= 0 {
        Ok((b, seq![]))
    } else {
        match one_round(cfgs, pending, b, n - 1) {
            Err(e) => Err(e),
            Ok(x) => if ready(x.0, cfgs[pending[n - 1] as int]) {
                match added(x.0, cfgs[pending[n - 1] as int]) {
                    Err(e) => Err(e),
                    Ok(b2) => Ok((b2, x.1)),
                }
            } else {
                Ok((x.0, x.1.push(pending[n - 1])))
            },
        }
    }
}

/// Why the outbounds of a configuration could not be built.
#[verifier::ext_equal]
pub enum BuildFailure {
    /// There is no cipher of this name.
    Cipher(Seq<char>),
    /// The references of these configurations lead nowhere or in a circle.
    Unresolved(Seq<usize>),
}

/// Rounds over the waiting configurations until none waits any more, or a round adds nothing.
pub open spec fn all_rounds(cfgs: Seq<OutboundConfig>, pending: Seq<usize>, b: Built) -> Result<Built, BuildFailure>
    decreases pending.len(),
{
    if pending.len() == 0 {
        Ok(b)
    } else {
        match one_round(cfgs, pending, b, pending.len() as int) {
            Err(e) => Err(BuildFailure::Cipher(e)),
            Ok(x) => if x.1.len() >= pending.len() {
                Err(BuildFailure::Unresolved(x.1))
            } else {
                all_rounds(cfgs, x.1, x.0)
            },
        }
    }
}

/// What a configuration gives.
pub open spec fn built(cfgs: Seq<OutboundConfig>) -> Result<Built, BuildFailure> {
    match first_pass(cfgs, cfgs.len() as int) {
        Err(e) => Err(BuildFailure::Cipher(e)),
        Ok(b) => all_rounds(cfgs, waiting(cfgs, cfgs.len() as int), with_defaults(b)),
    }
}

/// A health check that has to run.
pub struct HealthCheck {
    pub node: usize,
    pub url: String,
    pub interval: u64,
}

/// Why the outbounds of a configuration could not be built.
pub enum BuildError {
    Cipher(SsError),
    Unresolved(Vec<usize>),
}

/// The outbounds.
pub struct OutboundManager {
    pub nodes: Vec<OutboundNode>,
    pub index: Table<String, usize>,
    pub groups: GroupState,
}

struct Builder {
    nodes: Vec<OutboundNode>,
    index: Table<String, usize>,
    checks: Vec<HealthCheck>,
    now_ms: u64,
}

/// Outbounds as values.
pub open spec fn node_views(v: Seq<OutboundNode>) -> Seq<NodeView> {
    Seq::new(v.len(), |i: int| node_view(v[i]))
}

/// Health checks as values.
pub open spec fn check_views(v: Seq<HealthCheck>) -> Seq<CheckView> {
    Seq::new(v.len(), |i: int| CheckView { node: v[i].node, url: v[i].url@, interval: v[i].interval })
}

/// Every name leads to the outbound of that name.
pub open spec fn index_right(nodes: Seq<OutboundNode>, index: Map<Seq<char>, usize>) -> bool {
    forall|t: Seq<char>| #[trigger]
        index.dom().contains(t) ==> index[t] < nodes.len() && nodes[index[t] as int].name() == t
}

impl Builder {
    spec fn view(&self) -> Built {
        Built { nodes: node_views(self.nodes@), index: self.index@, checks: check_views(self.checks@) }
    }

    spec fn wf(&self) -> bool {
        &&& self.index.wf()
        &&& ordered(self.nodes@)
        &&& index_right(self.nodes@, self.index@)
        &&& forall|i: int| 0 <= i < self.nodes@.len() ==> #[trigger] untouched(self.nodes@[i], self.now_ms)
    }

    fn find_refs(&self, c: &OutboundConfig) -> (r: Option<Vec<usize>>)
        requires
            self.wf(),
        ensures
            match r {
                Some(v) => ready(self.view(), *c) && v@ == places(self.view(), *c) && forall|k: int|
                    0 <= k < v@.len() ==> v@[k] < self.nodes@.len(),
                None => !ready(self.view(), *c),
            },
    {
        let mut one: Vec<String> = Vec::new();
        let names: &Vec<String> = match c {
            OutboundConfig::Mirage { underlying: Some(u), .. } => {
                one.push(u.clone());
                &one
            },
            OutboundConfig::Shadowsocks { underlying: Some(u), .. } => {
                one.push(u.clone());
                &one
            },
            OutboundConfig::Urltest { outbounds, .. } => outbounds,
            OutboundConfig::Fallback { outbounds, .. } => outbounds,
            OutboundConfig::Selector { outbounds, .. } => outbounds,
            OutboundConfig::LoadBalance { outbounds, .. } => outbounds,
            _ => &one,
        };
        assert(texts(names@) =~= c.refs());
        let mut out: Vec<usize> = Vec::new();
        let mut i: usize = 0;
        while i < names.len()
            invariant
                self.wf(),
                texts(names@) == c.refs(),
                i <= names@.len(),
                out@.len() == i,
                forall|k: int|
                    0 <= k < i ==> self.index@.dom().contains(#[trigger] c.refs()[k]) && out@[k] == self.index@[c.refs()[k]],
                forall|k: int| 0 <= k < i ==> #[trigger] out@[k] < self.nodes@.len(),
            decreases names@.len() - i,
        {
            assert(c.refs()[i as int] == names@[i as int]@);
            match self.index.get(&names[i]) {
                None => {
                    return None;
                },
                Some(p) => {
                    out.push(*p);
                },
            }
            i = i + 1;
        }
        assert(out@ =~= places(self.view(), *c));
        Some(out)
    }

    fn insert(&mut self, tag: String, node: OutboundNode)
        requires
            old(self).wf(),
            node.name() == tag@,
            untouched(node, old(self).now_ms),
            node.members() matches Some(k) ==> forall|j: int|
                0 <= j < k.len() ==> (#[trigger] k[j]) < old(self).nodes@.len(),
            node.below() matches Some(u) ==> u < old(self).nodes@.len(),
            old(self).nodes@.len() < usize::MAX,
        ensures
            final(self).wf(),
            final(self).now_ms == old(self).now_ms,
            final(self).view() == (Built {
                nodes: old(self).view().nodes.push(node_view(node)),
                index: old(self).view().index.insert(tag@, old(self).nodes@.len() as usize),
                checks: old(self).view().checks,
            }),
    {
        let at: usize = self.nodes.len();
        let ghost before = self.nodes@;
        self.nodes.push(node);
        let ghost t = tag@;
        self.index.insert(tag, at);
        proof {
            assert(node_views(self.nodes@) =~= node_views(before).push(node_view(node)));
            assert forall|i: int, j: int|
                0 <= i < self.nodes@.len() && self.nodes@[i].members() is Some && 0 <= j < self.nodes@[i].members()->0.len() implies (
            #[trigger] self.nodes@[i].members()->0[j]) < i by {
                if i < before.len() {
                    assert(before[i].members()->0[j] < i);
                }
            }
            assert forall|i: int| 0 <= i < self.nodes@.len() && (#[trigger] self.nodes@[i].below()) is Some implies
                self.nodes@[i].below()->0 < i by {
                if i < before.len() {
                    assert(before[i].below()->0 < i);
                }
            }
            assert forall|i: int| 0 <= i < self.nodes@.len() implies #[trigger] untouched(self.nodes@[i], self.now_ms) by {
                if i < before.len() {
                    assert(untouched(before[i], self.now_ms));
                }
            }
            assert forall|x: Seq<char>| #[trigger] self.index@.dom().contains(x) implies self.index@[x] < self.nodes@.len()
                && self.nodes@[self.index@[x] as int].name() == x by {
                if x != t {
                    assert(old(self).index@.dom().contains(x));
                }
            }
        }
    }

    fn add_checks(&mut self, at: &Vec<usize>, url: &String, interval: u64)
        requires
            old(self).wf(),
            forall|k: int| 0 <= k < at@.len() ==> #[trigger] at@[k] < old(self).nodes@.len(),
        ensures
            final(self).wf(),
            final(self).nodes == old(self).nodes,
            final(self).index == old(self).index,
            final(self).now_ms == old(self).now_ms,
            check_views(final(self).checks@) == check_views(old(self).checks@) + checks_for(
                old(self).view().nodes,
                at@,
                at@.len() as int,
                url@,
                interval,
            ),
    {
        let ghost b = self.view();
        let text: Vec<char> = chars_of(url.as_str());
        if interval == 0 || text.len() == 0 {
            assert(check_views(self.checks@) =~= b.checks + checks_for(b.nodes, at@, at@.len() as int, url@, interval));
            return;
        }
        let mut i: usize = 0;
        assert(check_views(self.checks@) =~= b.checks + checks_for(b.nodes, at@, 0, url@, interval));
        while i < at.len()
            invariant
                i <= at@.len(),
                self.wf(),
                self.nodes == old(self).nodes,
                self.index == old(self).index,
                self.now_ms == old(self).now_ms,
                b == old(self).view(),
                interval > 0,
                url@.len() > 0,
                forall|k: int| 0 <= k < at@.len() ==> #[trigger] at@[k] < old(self).nodes@.len(),
                check_views(self.checks@) == b.checks + checks_for(b.nodes, at@, i as int, url@, interval),
            decreases at@.len() - i,
        {
            let ghost before = self.checks@;
            let k: usize = at[i];
            assert(b.nodes[k as int] == node_view(self.nodes@[k as int]));
            match &self.nodes[k] {
                OutboundNode::Mirage { .. } => {
                    let check: HealthCheck = HealthCheck { node: k, url: url.clone(), interval };
                    self.checks.push(check);
                    assert(check_views(self.checks@) =~= check_views(before).push(
                        CheckView { node: k, url: url@, interval },
                    ));
                },
                _ => {},
            }
            assert(check_views(self.checks@) =~= b.checks + checks_for(b.nodes, at@, i + 1, url@, interval));
            i = i + 1;
        }
    }

    fn add_leafs_checks(&mut self, c: &OutboundConfig, at: &Vec<usize>)
        requires
            old(self).wf(),
            forall|k: int| 0 <= k < at@.len() ==> #[trigger] at@[k] < old(self).nodes@.len(),
        ensures
            final(self).wf(),
            final(self).now_ms == old(self).now_ms,
            final(self).nodes == old(self).nodes,
            final(self).index == old(self).index,
            check_views(final(self).checks@) == check_views(old(self).checks@) + checks_for(
                old(self).view().nodes,
                at@,
                at@.len() as int,
                c.check().0,
                c.check().1,
            ),
    {
        match c {
            OutboundConfig::Urltest { interval, url, .. } => self.add_checks(at, url, *interval),
            OutboundConfig::Fallback { interval, url, .. } => self.add_checks(at, url, *interval),
            OutboundConfig::LoadBalance { interval, url, .. } => self.add_checks(at, url, *interval),
            _ => {
                assert(check_views(self.checks@) =~= check_views(self.checks@) + checks_for(
                    self.view().nodes,
                    at@,
                    at@.len() as int,
                    c.check().0,
                    c.check().1,
                ));
            },
        }
    }

    fn add(&mut self, c: &OutboundConfig, at: Vec<usize>) -> (r: Result<(), SsError>)
        requires
            old(self).wf(),
            c.rate_fits(),
            at@ == places(old(self).view(), *c),
            forall|k: int| 0 <= k < at@.len() ==> #[trigger] at@[k] < old(self).nodes@.len(),
            old(self).nodes@.len() < usize::MAX,
        ensures
            final(self).wf(),
            final(self).now_ms == old(self).now_ms,
            match added(old(self).view(), *c) {
                Ok(b) => r is Ok && final(self).view() == b && final(self).nodes@.len() == old(self).nodes@.len() + 1,
                Err(e) => r matches Err(SsError::UnsupportedMethod(n)) && n@ == e,
            },
    {
        let ghost b0 = self.view();
        self.add_leafs_checks(c, &at);
        let ghost n0 = self.nodes@.len();
        match make_node(c, at, self.now_ms) {
            Err(e) => Err(e),
            Ok(node) => {
                let tag: String = name_of(c);
                self.insert(tag, node);
                assert(self.nodes@.len() == self.view().nodes.len());
                assert(b0.nodes.len() == n0);
                Ok(())
            },
        }
    }
}

fn name_of(c: &OutboundConfig) -> (r: String)
    ensures
        r@ == c.name(),
{
    match c {
        OutboundConfig::Mirage { tag, .. } => tag.clone(),
        OutboundConfig::Wireguard { tag, .. } => tag.clone(),
        OutboundConfig::Direct { tag } => tag.clone(),
        OutboundConfig::Block { tag } => tag.clone(),
        OutboundConfig::Shadowsocks { tag, .. } => tag.clone(),
        OutboundConfig::Urltest { tag, .. } => tag.clone(),
        OutboundConfig::Fallback { tag, .. } => tag.clone(),
        OutboundConfig::Selector { tag, .. } => tag.clone(),
        OutboundConfig::LoadBalance { tag, .. } => tag.clone(),
    }
}

/// The peer that is configured.
pub fn build_peer(c: &OutboundConfig) -> (r: Option<WgConfig>)
    ensures
        match r {
            Some(p) => configured_peer(*c) == Some(peer_view(p)),
            None => configured_peer(*c) is None,
        },
{
    match c {
        OutboundConfig::Wireguard {
            private_key,
            peer_public_key,
            preshared_key,
            endpoint,
            address,
            mtu,
            persistent_keepalive,
            dns,
            ..
        } => {
            let private: [u8; 32] = match decode_wg_key(private_key.as_str(), "private_key") {
                Ok(k) => k,
                Err(_) => {
                    return None;
                },
            };
            let public: [u8; 32] = match decode_wg_key(peer_public_key.as_str(), "peer_public_key") {
                Ok(k) => k,
                Err(_) => {
                    return None;
                },
            };
            let psk: Option<[u8; 32]> = match preshared_key {
                None => None,
                Some(t) => match decode_wg_key(t.as_str(), "preshared_key") {
                    Ok(k) => Some(k),
                    Err(_) => {
                        return None;
                    },
                },
            };
            let addr: IpAddr = match parse_ip_str(address.as_str()) {
                Some(a) => a,
                None => {
                    return None;
                },
            };
            let name_server: Option<IpAddr> = match dns {
                None => None,
                Some(t) => match parse_ip_str(t.as_str()) {
                    Some(a) => Some(a),
                    None => {
                        return None;
                    },
                },
            };
            Some(
                WgConfig {
                    private_key: private,
                    peer_public_key: public,
                    preshared_key: psk,
                    endpoint: endpoint.clone(),
                    address: addr,
                    mtu: *mtu,
                    persistent_keepalive: *persistent_keepalive,
                    dns: name_server,
                },
            )
        },
        _ => None,
    }
}

fn first_place(at: &Vec<usize>) -> (r: Option<usize>)
    ensures
        r == if at@.len() > 0 {
            Some(at@[0])
        } else {
            None
        },
{
    if at.len() > 0 {
        Some(at[0])
    } else {
        None
    }
}

fn make_node(c: &OutboundConfig, at: Vec<usize>, now_ms: u64) -> (r: Result<OutboundNode, SsError>)
    requires
        c.rate_fits(),
    ensures
        match made(*c, at@) {
            Ok(v) => r matches Ok(n) && node_view(n) == v && untouched(n, now_ms) && n.name() == c.name() && (n.members() matches Some(
                k,
            ) ==> k == at@) && (n.below() matches Some(u) ==> at@.len() > 0 && u == at@[0]),
            Err(e) => r matches Err(SsError::UnsupportedMethod(n)) && n@ == e,
        },
{
    match c {
        OutboundConfig::Mirage {
            tag,
            server,
            server_port,
            password,
            camouflage_host,
            pool_size,
            brutal_rate_mbps,
            brutal_base_rtt_ms,
            pfs,
            ..
        } => {
            let rate: Option<u64> = match brutal_rate_mbps {
                Some(m) => Some(*m * BYTES_PER_MBPS),
                None => None,
            };
            Ok(
                OutboundNode::Mirage {
                    tag: tag.clone(),
                    cfg: PoolConfig {
                        server_host: server.clone(),
                        server_port: *server_port,
                        password: password.clone(),
                        camouflage_host: camouflage_host.clone(),
                        pool_size: *pool_size,
                        underlying: first_place(&at),
                        pfs: *pfs,
                    },
                    brutal: BrutalState::new(rate, *brutal_base_rtt_ms),
                    pool: WarmPool::new(*pool_size, now_ms),
                    server_ip: None,
                    rtt_ms: u64::MAX,
                    snd_cwnd: 0,
                    total_retrans: u64::MAX,
                    total_segs_out: u64::MAX,
                },
            )
        },
        OutboundConfig::Wireguard { tag, .. } => {
            match build_peer(c) {
                Some(peer) => Ok(OutboundNode::Wireguard { tag: tag.clone(), peer }),
                None => Ok(OutboundNode::Block { tag: tag.clone() }),
            }
        },
        OutboundConfig::Direct { tag } => Ok(OutboundNode::Direct { tag: tag.clone() }),
        OutboundConfig::Block { tag } => Ok(OutboundNode::Block { tag: tag.clone() }),
        OutboundConfig::Shadowsocks { tag, server, server_port, method, password, .. } => {
            match Method::parse(method.as_str()) {
                Err(e) => Err(e),
                Ok(m) => Ok(
                    OutboundNode::Shadowsocks {
                        tag: tag.clone(),
                        server: SsConfig {
                            server: server.clone(),
                            port: *server_port,
                            password: password.clone(),
                            method: m,
                            block_udp: true,
                        },
                        underlying: first_place(&at),
                    },
                ),
            }
        },
        OutboundConfig::Urltest { tag, tolerance, test_type, .. } => Ok(
            OutboundNode::Urltest {
                tag: tag.clone(),
                children: at,
                tolerance_ms: *tolerance,
                test_type: test_type.clone(),
            },
        ),
        OutboundConfig::Fallback { tag, .. } => Ok(OutboundNode::Fallback { tag: tag.clone(), children: at }),
        OutboundConfig::Selector { tag, .. } => Ok(OutboundNode::Selector { tag: tag.clone(), children: at }),
        OutboundConfig::LoadBalance { tag, .. } => Ok(OutboundNode::LoadBalance { tag: tag.clone(), children: at }),
    }
}

/// What the result of building means.
pub open spec fn build_matches(
    r: Result<(OutboundManager, Vec<HealthCheck>), BuildError>,
    cfgs: Seq<OutboundConfig>,
    now_ms: u64,
) -> bool {
    match built(cfgs) {
        Ok(b) => r matches Ok(m) && m.0.wf() && node_views(m.0.nodes@) == b.nodes && m.0.index@ == b.index && check_views(
            m.1@,
        ) == b.checks && (forall|i: int| 0 <= i < m.0.nodes@.len() ==> #[trigger] untouched(m.0.nodes@[i], now_ms)) && (forall|
            i: int,
        |
            0 <= i < m.0.nodes@.len() ==> (#[trigger] m.0.groups.current@[i]) is None) && (forall|i: int|
            0 <= i < m.0.nodes@.len() ==> (#[trigger] m.0.groups.next@[i]) == 0),
        Err(BuildFailure::Cipher(n)) => r matches Err(BuildError::Cipher(SsError::UnsupportedMethod(x))) && x@ == n,
        Err(BuildFailure::Unresolved(p)) => r matches Err(BuildError::Unresolved(v)) && v@ == p,
    }
}

impl OutboundManager {
    /// Every reference points to an outbound earlier in the list, what the groups remember fits, and
    /// every name leads to the outbound of that name.
    pub open spec fn wf(&self) -> bool {
        &&& ordered(self.nodes@)
        &&& self.groups.fits(self.nodes@.len() as int)
        &&& self.index.wf()
        &&& index_right(self.nodes@, self.index@)
    }

    /// Builds the outbounds of a configuration, and lists the health checks that have to run. Those
    /// that wait for no other come first; the others follow round by round, once what they refer to
    /// is there.
    pub fn new(cfgs: &Vec<OutboundConfig>, now_ms: u64) -> (r: Result<(OutboundManager, Vec<HealthCheck>), BuildError>)
        requires
            cfgs@.len() + 2 <= usize::MAX,
            forall|i: int| 0 <= i < cfgs@.len() ==> (#[trigger] cfgs@[i]).rate_fits(),
        ensures
            build_matches(r, cfgs@, now_ms),
    {
        let mut b: Builder = Builder { nodes: Vec::new(), index: Table::new(), checks: Vec::new(), now_ms };
        let mut pending: Vec<usize> = Vec::new();
        let mut i: usize = 0;
        proof {
            assert(b.view().nodes =~= seq![]);
            assert(b.view().checks =~= seq![]);
            assert(b.view().index =~= Map::empty());
        }
        while i < cfgs.len()
            invariant
                forall|k: int| 0 <= k < cfgs@.len() ==> (#[trigger] cfgs@[k]).rate_fits(),
                i <= cfgs@.len(),
                b.wf(),
                b.now_ms == now_ms,
                first_pass(cfgs@, i as int) == Ok::<Built, Seq<char>>(b.view()),
                pending@ == waiting(cfgs@, i as int),
                forall|k: int| 0 <= k < pending@.len() ==> #[trigger] pending@[k] < i,
                b.nodes@.len() + pending@.len() <= i,
            decreases cfgs@.len() - i,
        {
            let c: &OutboundConfig = &cfgs[i];
            let waits: bool = match c {
                OutboundConfig::Mirage { underlying, .. } => underlying.is_some(),
                OutboundConfig::Shadowsocks { underlying, .. } => underlying.is_some(),
                OutboundConfig::Wireguard { .. } => false,
                OutboundConfig::Direct { .. } => false,
                OutboundConfig::Block { .. } => false,
                _ => true,
            };
            if waits {
                pending.push(i);
            } else {
                let at: Vec<usize> = Vec::new();
                assert(at@ =~= places(b.view(), *c));
                match b.add(c, at) {
                    Ok(_) => {},
                    Err(e) => {
                        proof {
                            lemma_first_pass_stops(cfgs@, i + 1, cfgs@.len() as int);
                        }
                        return Err(BuildError::Cipher(e));
                    },
                }
            }
            i = i + 1;
        }
        let ghost first = b.view();
        assert(first.nodes.len() == b.nodes@.len());
        let direct: String = "direct".to_owned();
        if !b.index.contains(&direct) {
            b.insert("direct".to_owned(), OutboundNode::Direct { tag: direct });
        }
        let block: String = "block".to_owned();
        if !b.index.contains(&block) {
            b.insert("block".to_owned(), OutboundNode::Block { tag: block });
        }
        assert(b.view() =~= with_defaults(first));
        assert(b.view().nodes.len() == b.nodes@.len());
        let ghost total = built(cfgs@);
        while pending.len() > 0
            invariant
                forall|k: int| 0 <= k < cfgs@.len() ==> (#[trigger] cfgs@[k]).rate_fits(),
                cfgs@.len() + 2 <= usize::MAX,
                b.wf(),
                b.now_ms == now_ms,
                total == built(cfgs@),
                total == all_rounds(cfgs@, pending@, b.view()),
                forall|k: int| 0 <= k < pending@.len() ==> #[trigger] pending@[k] < cfgs@.len(),
                b.nodes@.len() + pending@.len() <= cfgs@.len() + 2,
            decreases pending@.len(),
        {
            let mut rest: Vec<usize> = Vec::new();
            let mut k: usize = 0;
            let ghost b0 = b.view();
            while k < pending.len()
                invariant
                    forall|j: int| 0 <= j < cfgs@.len() ==> (#[trigger] cfgs@[j]).rate_fits(),
                    cfgs@.len() + 2 <= usize::MAX,
                    b.wf(),
                    b.now_ms == now_ms,
                    k <= pending@.len(),
                    rest@.len() <= k,
                    total == built(cfgs@),
                    total == all_rounds(cfgs@, pending@, b0),
                    one_round(cfgs@, pending@, b0, k as int) == Ok::<(Built, Seq<usize>), Seq<char>>((b.view(), rest@)),
                    forall|j: int| 0 <= j < pending@.len() ==> #[trigger] pending@[j] < cfgs@.len(),
                    forall|j: int| 0 <= j < rest@.len() ==> #[trigger] rest@[j] < cfgs@.len(),
                    b.nodes@.len() + rest@.len() + (pending@.len() - k) <= cfgs@.len() + 2,
                decreases pending@.len() - k,
            {
                let p: usize = pending[k];
                assert(pending@[k as int] < cfgs@.len());
                match b.find_refs(&cfgs[p]) {
                    None => {
                        rest.push(p);
                    },
                    Some(at) => {
                        match b.add(&cfgs[p], at) {
                            Ok(_) => {},
                            Err(e) => {
                                proof {
                                    lemma_round_stops(cfgs@, pending@, b0, k + 1, pending@.len() as int);
                                }
                                return Err(BuildError::Cipher(e));
                            },
                        }
                    },
                }
                k = k + 1;
            }
            if rest.len() >= pending.len() {
                return Err(BuildError::Unresolved(rest));
            }
            pending = rest;
        }
        let n: usize = b.nodes.len();
        let mut current: Vec<Option<usize>> = Vec::new();
        let mut next: Vec<u64> = Vec::new();
        let mut j: usize = 0;
        while j < n
            invariant
                j <= n,
                current@.len() == j,
                next@.len() == j,
                forall|k: int| 0 <= k < j ==> (#[trigger] current@[k]) is None,
                forall|k: int| 0 <= k < j ==> (#[trigger] next@[k]) == 0,
            decreases n - j,
        {
            current.push(None);
            next.push(0);
            j = j + 1;
        }
        Ok((OutboundManager { nodes: b.nodes, index: b.index, groups: GroupState { current, next } }, b.checks))
    }

    /// The place of the outbound of a name.
    pub fn get(&self, tag: &str) -> (r: Option<usize>)
        requires
            self.wf(),
        ensures
            match r {
                Some(i) => self.index@.dom().contains(tag@) && i == self.index@[tag@] && i < self.nodes@.len()
                    && self.nodes@[i as int].name() == tag@,
                None => !self.index@.dom().contains(tag@),
            },
    {
        let key: String = tag.to_owned();
        match self.index.get(&key) {
            Some(i) => Some(*i),
            None => None,
        }
    }

    /// Whether an outbound works.
    pub fn is_healthy(&self, i: usize) -> (r: bool)
        requires
            self.wf(),
            i < self.nodes@.len(),
        ensures
            r == healthy(self.nodes@, i as int),
    {
        crate::outbound::is_healthy(&self.nodes, i)
    }

    /// What an outbound comes down to.
    pub fn resolve_leaf(&mut self, i: usize) -> (r: usize)
        requires
            old(self).wf(),
            i < old(self).nodes@.len(),
        ensures
            final(self).wf(),
            final(self).nodes == old(self).nodes,
            final(self).index == old(self).index,
            (final(self).groups@, r as int) == leaf(old(self).nodes@, old(self).groups@, i as int),
            r <= i,
    {
        resolve(&self.nodes, &mut self.groups, i)
    }

    /// The latency of an outbound by the kind of test that is asked for.
    pub fn latency_ms(&mut self, i: usize, test_type: &str) -> (r: Option<u64>)
        requires
            old(self).wf(),
            i < old(self).nodes@.len(),
        ensures
            final(self).wf(),
            final(self).nodes == old(self).nodes,
            final(self).index == old(self).index,
            (final(self).groups@, r) == latency(
                old(self).nodes@,
                old(self).groups@,
                i as int,
                test_type@ == "rtt"@,
            ),
    {
        let rtt: bool = same_text(test_type, "rtt");
        crate::outbound::latency_ms(&self.nodes, &mut self.groups, i, rtt)
    }

    /// The round trip time of an outbound.
    pub fn latency_rtt_ms(&mut self, i: usize) -> (r: Option<u64>)
        requires
            old(self).wf(),
            i < old(self).nodes@.len(),
        ensures
            final(self).wf(),
            final(self).nodes == old(self).nodes,
            final(self).index == old(self).index,
            (final(self).groups@, r) == latency_of(old(self).nodes@, old(self).groups@, i as int, true),
    {
        crate::outbound::one_latency(&self.nodes, &mut self.groups, i, true)
    }

    /// The latency of an outbound that the health checks measured.
    pub fn latency_http_ms(&mut self, i: usize) -> (r: Option<u64>)
        requires
            old(self).wf(),
            i < old(self).nodes@.len(),
        ensures
            final(self).wf(),
            final(self).nodes == old(self).nodes,
            final(self).index == old(self).index,
            (final(self).groups@, r) == latency_of(old(self).nodes@, old(self).groups@, i as int, false),
    {
        crate::outbound::one_latency(&self.nodes, &mut self.groups, i, false)
    }

    /// Selects a member for a group.
    pub fn select(&mut self, i: usize, member: usize)
        requires
            old(self).wf(),
            i < old(self).nodes@.len(),
            member < i,
        ensures
            final(self).wf(),
            final(self).nodes == old(self).nodes,
            final(self).index == old(self).index,
            final(self).groups@ == picked(old(self).groups@, i as int, member),
    {
        self.groups.current.set(i, Some(member));
    }
}

proof fn lemma_first_pass_stops(cfgs: Seq<OutboundConfig>, m: int, n: int)
    requires
        m <= n,
        first_pass(cfgs, m) is Err,
    ensures
        first_pass(cfgs, n) == first_pass(cfgs, m),
    decreases n,
{
    if m < n {
        if n > 0 {
            lemma_first_pass_stops(cfgs, m, n - 1);
        }
    }
}

proof fn lemma_round_stops(cfgs: Seq<OutboundConfig>, pending: Seq<usize>, b: Built, m: int, n: int)
    requires
        m <= n,
        one_round(cfgs, pending, b, m) is Err,
    ensures
        one_round(cfgs, pending, b, n) == one_round(cfgs, pending, b, m),
    decreases n,
{
    if m < n {
        if n > 0 {
            lemma_round_stops(cfgs, pending, b, m, n - 1);
        }
    }
}

/// A tunnel whose keys or addresses are wrong refuses every connection. It never connects directly.
pub proof fn law_bad_tunnel_refuses(c: OutboundConfig, at: Seq<usize>)
    requires
        c is Wireguard,
        configured_peer(c) is None,
    ensures
        made(c, at) == Ok::<NodeView, Seq<char>>(NodeView::Block { tag: c.name() }),
{
}

proof fn lemma_first_pass_names(cfgs: Seq<OutboundConfig>, n: int, k: int)
    requires
        0 <= k < n <= cfgs.len(),
        first_pass(cfgs, n) is Ok,
    ensures
        first_pass(cfgs, n)->Ok_0.index.dom().contains(cfgs[k].name()) || waiting(cfgs, n).contains(k as usize),
    decreases n,
{
    if k < n - 1 {
        lemma_first_pass_names(cfgs, n - 1, k);
        if waiting(cfgs, n - 1).contains(k as usize) && cfgs[n - 1].waits() {
            let w = waiting(cfgs, n - 1);
            let i = w.index_of(k as usize);
            assert(w.push((n - 1) as usize)[i] == k as usize);
        }
    } else if cfgs[k].waits() {
        let w = waiting(cfgs, n - 1);
        assert(w.push((n - 1) as usize)[w.len() as int] == k as usize);
    }
}

proof fn lemma_waiting_bounds(cfgs: Seq<OutboundConfig>, n: int)
    requires
        0 <= n <= cfgs.len() <= usize::MAX,
    ensures
        forall|j: int|
            0 <= j < waiting(cfgs, n).len() ==> (#[trigger] waiting(cfgs, n)[j]) < n && cfgs[waiting(
                cfgs,
                n,
            )[j] as int].waits(),
    decreases n,
{
    if n > 0 {
        lemma_waiting_bounds(cfgs, n - 1);
        let w = waiting(cfgs, n - 1);
        assert forall|j: int| 0 <= j < waiting(cfgs, n).len() implies (#[trigger] waiting(cfgs, n)[j]) < n && cfgs[waiting(
            cfgs,
            n,
        )[j] as int].waits() by {
            if j < w.len() {
                assert(waiting(cfgs, n)[j] == w[j]);
            }
        }
    }
}

proof fn lemma_round_names(cfgs: Seq<OutboundConfig>, pending: Seq<usize>, b: Built, n: int, k: usize)
    requires
        0 <= n <= pending.len(),
        one_round(cfgs, pending, b, n) is Ok,
    ensures
        ({
            let x = one_round(cfgs, pending, b, n)->Ok_0;
            &&& b.index.dom().subset_of(x.0.index.dom())
            &&& pending.take(n).contains(k) ==> x.0.index.dom().contains(cfgs[k as int].name()) || x.1.contains(k)
        }),
    decreases n,
{
    if n > 0 {
        lemma_round_names(cfgs, pending, b, n - 1, k);
        let y = one_round(cfgs, pending, b, n - 1)->Ok_0;
        let x = one_round(cfgs, pending, b, n)->Ok_0;
        if pending.take(n).contains(k) {
            let i = pending.take(n).index_of(k);
            if i < n - 1 {
                assert(pending.take(n - 1)[i] == k);
                assert(pending.take(n - 1).contains(k));
                if y.1.contains(k) && x.1 != y.1 {
                    let j = y.1.index_of(k);
                    assert(x.1[j] == k);
                }
            } else {
                if x.1 != y.1 {
                    assert(x.1[y.1.len() as int] == k);
                }
            }
        }
    }
}

proof fn lemma_round_len(cfgs: Seq<OutboundConfig>, pending: Seq<usize>, b: Built, n: int)
    requires
        0 <= n <= pending.len(),
        one_round(cfgs, pending, b, n) is Ok,
    ensures
        ({
            let x = one_round(cfgs, pending, b, n)->Ok_0;
            &&& x.1.len() <= n
            &&& x.1.len() == n ==> x.0 == b && x.1 == pending.take(n) && forall|j: int|
                0 <= j < n ==> !ready(b, cfgs[#[trigger] pending[j] as int])
        }),
    decreases n,
{
    if n > 0 {
        lemma_round_len(cfgs, pending, b, n - 1);
        let y = one_round(cfgs, pending, b, n - 1)->Ok_0;
        assert(pending.take(n) =~= pending.take(n - 1).push(pending[n - 1]));
    } else {
        assert(pending.take(0) =~= seq![]);
    }
}

proof fn lemma_rounds_names(cfgs: Seq<OutboundConfig>, pending: Seq<usize>, b: Built, k: usize)
    requires
        all_rounds(cfgs, pending, b) is Ok,
    ensures
        b.index.dom().subset_of(all_rounds(cfgs, pending, b)->Ok_0.index.dom()),
        pending.contains(k) ==> all_rounds(cfgs, pending, b)->Ok_0.index.dom().contains(cfgs[k as int].name()),
    decreases pending.len(),
{
    if pending.len() > 0 {
        lemma_round_names(cfgs, pending, b, pending.len() as int, k);
        assert(pending.take(pending.len() as int) =~= pending);
        let x = one_round(cfgs, pending, b, pending.len() as int)->Ok_0;
        lemma_rounds_names(cfgs, x.1, x.0, k);
    }
}

/// Where building succeeds, there is an outbound for every configured name, and always one that
/// connects directly and one that refuses.
pub proof fn law_every_name_built(cfgs: Seq<OutboundConfig>, k: int)
    requires
        cfgs.len() <= usize::MAX,
        0 <= k < cfgs.len(),
        built(cfgs) is Ok,
    ensures
        built(cfgs)->Ok_0.index.dom().contains(cfgs[k].name()),
        built(cfgs)->Ok_0.index.dom().contains("direct"@),
        built(cfgs)->Ok_0.index.dom().contains("block"@),
{
    let n = cfgs.len() as int;
    lemma_first_pass_names(cfgs, n, k);
    let b = with_defaults(first_pass(cfgs, n)->Ok_0);
    lemma_rounds_names(cfgs, waiting(cfgs, n), b, k as usize);
    assert(b.index.dom().contains("direct"@));
    assert(b.index.dom().contains("block"@));
}

/// None of these names is built.
pub open spec fn none_built(b: Built, names: Set<Seq<char>>) -> bool {
    forall|t: Seq<char>| #[trigger] names.contains(t) ==> !b.index.dom().contains(t)
}

/// Every configuration of one of these names waits for one of these names.
pub open spec fn circular(cfgs: Seq<OutboundConfig>, names: Set<Seq<char>>) -> bool {
    forall|i: int|
        0 <= i < cfgs.len() && names.contains((#[trigger] cfgs[i]).name()) ==> cfgs[i].waits() && exists|j: int|
            0 <= j < cfgs[i].refs().len() && names.contains(#[trigger] cfgs[i].refs()[j])
}

proof fn lemma_circle_first(cfgs: Seq<OutboundConfig>, names: Set<Seq<char>>, n: int)
    requires
        0 <= n <= cfgs.len(),
        circular(cfgs, names),
        first_pass(cfgs, n) is Ok,
    ensures
        none_built(first_pass(cfgs, n)->Ok_0, names),
    decreases n,
{
    if n > 0 {
        lemma_circle_first(cfgs, names, n - 1);
        assert(names.contains(cfgs[n - 1].name()) ==> cfgs[n - 1].waits());
    }
}

proof fn lemma_circle_round(cfgs: Seq<OutboundConfig>, names: Set<Seq<char>>, pending: Seq<usize>, b: Built, n: int)
    requires
        0 <= n <= pending.len(),
        forall|j: int| 0 <= j < pending.len() ==> (#[trigger] pending[j]) < cfgs.len(),
        circular(cfgs, names),
        none_built(b, names),
        one_round(cfgs, pending, b, n) is Ok,
    ensures
        none_built(one_round(cfgs, pending, b, n)->Ok_0.0, names),
        forall|j: int|
            0 <= j < one_round(cfgs, pending, b, n)->Ok_0.1.len() ==> (#[trigger] one_round(cfgs, pending, b, n)->Ok_0.1[j])
                < cfgs.len(),
    decreases n,
{
    if n > 0 {
        lemma_circle_round(cfgs, names, pending, b, n - 1);
        let y = one_round(cfgs, pending, b, n - 1)->Ok_0;
        let c = cfgs[pending[n - 1] as int];
        assert(pending[n - 1] < cfgs.len());
        if names.contains(c.name()) {
            let j = choose|j: int| 0 <= j < c.refs().len() && names.contains(#[trigger] c.refs()[j]);
            assert(!y.0.index.dom().contains(c.refs()[j]));
            assert(!ready(y.0, c));
        }
    }
}

proof fn lemma_circle_rounds(cfgs: Seq<OutboundConfig>, names: Set<Seq<char>>, pending: Seq<usize>, b: Built)
    requires
        forall|j: int| 0 <= j < pending.len() ==> (#[trigger] pending[j]) < cfgs.len(),
        circular(cfgs, names),
        none_built(b, names),
        all_rounds(cfgs, pending, b) is Ok,
    ensures
        none_built(all_rounds(cfgs, pending, b)->Ok_0, names),
    decreases pending.len(),
{
    if pending.len() > 0 {
        lemma_circle_round(cfgs, names, pending, b, pending.len() as int);
        let x = one_round(cfgs, pending, b, pending.len() as int)->Ok_0;
        lemma_circle_rounds(cfgs, names, x.1, x.0);
    }
}

/// References in a circle, to themselves or to undefined names are rejected: where every outbound of
/// some names waits for another of these names, nothing is built.
pub proof fn law_circle_rejected(cfgs: Seq<OutboundConfig>, names: Set<Seq<char>>, k: int)
    requires
        cfgs.len() <= usize::MAX,
        circular(cfgs, names),
        !names.contains("direct"@),
        !names.contains("block"@),
        0 <= k < cfgs.len(),
        names.contains(cfgs[k].name()),
    ensures
        built(cfgs) is Err,
{
    if built(cfgs) is Ok {
        let n = cfgs.len() as int;
        lemma_circle_first(cfgs, names, n);
        lemma_waiting_bounds(cfgs, n);
        let b = with_defaults(first_pass(cfgs, n)->Ok_0);
        lemma_circle_rounds(cfgs, names, waiting(cfgs, n), b);
        law_every_name_built(cfgs, k);
    }
}

proof fn lemma_stuck(cfgs: Seq<OutboundConfig>, pending: Seq<usize>, b: Built) -> (at: Built)
    requires
        all_rounds(cfgs, pending, b) is Err,
        all_rounds(cfgs, pending, b)->Err_0 is Unresolved,
    ensures
        ({
            let p = all_rounds(cfgs, pending, b)->Err_0->Unresolved_0;
            &&& p.len() > 0
            &&& forall|j: int| 0 <= j < p.len() ==> !ready(at, cfgs[#[trigger] p[j] as int])
            &&& b.index.dom().subset_of(at.index.dom())
            &&& forall|k: usize|
                #[trigger] pending.contains(k) && !p.contains(k) ==> at.index.dom().contains(cfgs[k as int].name())
        }),
    decreases pending.len(),
{
    let n = pending.len() as int;
    lemma_round_len(cfgs, pending, b, n);
    assert(pending.take(n) =~= pending);
    let x = one_round(cfgs, pending, b, n)->Ok_0;
    let p = all_rounds(cfgs, pending, b)->Err_0->Unresolved_0;
    if x.1.len() >= n {
        b
    } else {
        let at = lemma_stuck(cfgs, x.1, x.0);
        lemma_round_names(cfgs, pending, b, n, 0);
        assert forall|k: usize| #[trigger] pending.contains(k) && !p.contains(k) implies at.index.dom().contains(
            cfgs[k as int].name(),
        ) by {
            lemma_round_names(cfgs, pending, b, n, k);
        }
        at
    }
}

/// What is reported as unresolved is: each of the reported outbounds refers to a name that is not
/// there although everything else has been built, the built-in `direct` and `block` included.
pub proof fn law_unresolved_reason(cfgs: Seq<OutboundConfig>)
    requires
        cfgs.len() <= usize::MAX,
        built(cfgs) is Err,
        built(cfgs)->Err_0 is Unresolved,
    ensures
        ({
            let p = built(cfgs)->Err_0->Unresolved_0;
            &&& p.len() > 0
            &&& exists|b: Built|
                with_defaults(first_pass(cfgs, cfgs.len() as int)->Ok_0).index.dom().subset_of(b.index.dom()) && (forall|j: int| 0 <= j < p.len() ==> !ready(b, cfgs[#[trigger] p[j] as int])) && #[trigger] rest_built(
                    cfgs,
                    p,
                    b,
                )
        }),
{
    let n = cfgs.len() as int;
    let first = first_pass(cfgs, n)->Ok_0;
    let at = lemma_stuck(cfgs, waiting(cfgs, n), with_defaults(first));
    let p = built(cfgs)->Err_0->Unresolved_0;
    assert forall|k: int| 0 <= k < cfgs.len() && !p.contains(k as usize) implies at.index.dom().contains(
        (#[trigger] cfgs[k]).name(),
    ) by {
        lemma_first_pass_names(cfgs, n, k);
    }
    assert(rest_built(cfgs, p, at));
}

/// All outbounds but these are built.
pub open spec fn rest_built(cfgs: Seq<OutboundConfig>, except: Seq<usize>, b: Built) -> bool {
    forall|k: int|
        0 <= k < cfgs.len() && !except.contains(k as usize) ==> b.index.dom().contains((#[trigger] cfgs[k]).name())
}

/// What is configured of a server is what the outbound has: where it is, its password and site, the
/// size of its pool, and its rate in bytes per second, of which a megabit has a hundred and twenty-five
/// thousand. It is carried by the one outbound that it refers to, if it refers to one.
pub proof fn law_server_made(c: OutboundConfig, at: Seq<usize>)
    requires
        c is Mirage,
        at.len() <= 1,
    ensures
        ({
            let n = made(c, at);
            &&& n matches Ok(NodeView::Mirage { tag, host, port, password, camouflage, pool_size, pfs, below, rate, base_rtt })
            &&& tag == c.name()
            &&& host == c->Mirage_server@
            &&& port == c->Mirage_server_port
            &&& password == c->Mirage_password@
            &&& camouflage == c->camouflage_host@
            &&& pool_size == c->pool_size
            &&& pfs == c->pfs
            &&& base_rtt == c->brutal_base_rtt_ms
            &&& at.len() == 0 ==> below is None
            &&& at.len() == 1 ==> below == Some(at[0])
            &&& c->brutal_rate_mbps is None ==> rate is None
            &&& c->brutal_rate_mbps is Some ==> rate == Some(125000 * c->brutal_rate_mbps->0)
        }),
{
}

/// A Shadowsocks server is made with the cipher that its name stands for, and never carries datagrams. A
/// name that stands for none is refused, in lower case.
pub proof fn law_shadowsocks_made(c: OutboundConfig, at: Seq<usize>)
    requires
        c is Shadowsocks,
        at.len() <= 1,
    ensures
        method_text(c->method@) is None ==> made(c, at) == Err::<NodeView, Seq<char>>(lower_text(c->method@)),
        method_text(c->method@) is Some ==> ({
            let n = made(c, at);
            &&& n matches Ok(NodeView::Shadowsocks { tag, host, port, password, method, block_udp, below })
            &&& tag == c.name()
            &&& host == c->Shadowsocks_server@
            &&& port == c->Shadowsocks_server_port
            &&& password == c->Shadowsocks_password@
            &&& Some(method) == method_text(c->method@)
            &&& block_udp
            &&& at.len() == 0 ==> below is None
            &&& at.len() == 1 ==> below == Some(at[0])
        }),
{
}

/// A group has exactly the members that it refers to, in their order; the other outbounds have their
/// names, and a tunnel its peer.
pub proof fn law_others_made(c: OutboundConfig, at: Seq<usize>)
    ensures
        c is Direct ==> made(c, at) == Ok::<NodeView, Seq<char>>(NodeView::Direct { tag: c.name() }),
        c is Block ==> made(c, at) == Ok::<NodeView, Seq<char>>(NodeView::Block { tag: c.name() }),
        c is Fallback ==> made(c, at) == Ok::<NodeView, Seq<char>>(NodeView::Fallback { tag: c.name(), children: at }),
        c is Selector ==> made(c, at) == Ok::<NodeView, Seq<char>>(NodeView::Selector { tag: c.name(), children: at }),
        c is LoadBalance ==> made(c, at) == Ok::<NodeView, Seq<char>>(NodeView::LoadBalance { tag: c.name(), children: at }),
        c is Urltest ==> made(c, at) == Ok::<NodeView, Seq<char>>(
            NodeView::Urltest { tag: c.name(), children: at, tolerance: c->tolerance, test_type: c->test_type@ },
        ),
        c is Wireguard && configured_peer(c) is Some ==> made(c, at) == Ok::<NodeView, Seq<char>>(
            NodeView::Wireguard { tag: c.name(), peer: configured_peer(c)->0 },
        ),
{
}

/// A tunnel has a peer exactly where its keys are keys and its addresses addresses, as far as they are
/// given; and then the peer has them.
pub proof fn law_peer_configured(c: OutboundConfig)
    requires
        c is Wireguard,
    ensures
        configured_peer(c) is Some <==> wg_key(c->private_key@) is Some && wg_key(c->peer_public_key@) is Some && ip_text(
            c->address@,
        ) is Some && (c->preshared_key matches Some(k) ==> wg_key(k@) is Some) && (c->dns matches Some(d) ==> ip_text(
            d@,
        ) is Some),
        configured_peer(c) matches Some(p) ==> Some(p.private_key) == wg_key(c->private_key@) && Some(p.peer_public_key)
            == wg_key(c->peer_public_key@) && Some(p.address) == ip_text(c->address@) && p.endpoint == c->endpoint@ && p.mtu
            == c->mtu && p.persistent_keepalive == c->persistent_keepalive && (c->preshared_key is None
            ==> p.preshared_key is None) && (c->preshared_key matches Some(k) ==> p.preshared_key == wg_key(k@)) && (
        c->dns is None ==> p.dns is None) && (c->dns matches Some(d) ==> p.dns == ip_text(d@)),
{
}

/// What waits for other outbounds: every group, and a server that another outbound carries.
pub proof fn law_what_waits(c: OutboundConfig)
    ensures
        c is Urltest || c is Fallback || c is Selector || c is LoadBalance ==> c.waits(),
        c is Direct || c is Block || c is Wireguard ==> !c.waits() && c.refs().len() == 0,
        c is Mirage ==> (c.waits() <==> c->Mirage_underlying is Some) && (c->Mirage_underlying is None ==> c.refs().len()
            == 0) && (c->Mirage_underlying matches Some(u) ==> c.refs() == seq![u@]),
        c is Shadowsocks ==> (c.waits() <==> c->Shadowsocks_underlying is Some) && (c->Shadowsocks_underlying is None
            ==> c.refs().len() == 0) && (c->Shadowsocks_underlying matches Some(u) ==> c.refs() == seq![u@]),
{
}

/// Health checks run for exactly those members that are servers, with the address and the interval of
/// their group, where there is an address and an interval; and in the order of the members.
pub proof fn law_checks(nodes: Seq<NodeView>, at: Seq<usize>, n: int, url: Seq<char>, interval: u64, c: CheckView)
    requires
        0 <= n <= at.len(),
    ensures
        checks_for(nodes, at, n, url, interval).contains(c) <==> interval != 0 && url.len() > 0 && c.url == url && c.interval
            == interval && exists|i: int| 0 <= i < n && #[trigger] at[i] == c.node && nodes[at[i] as int] is Mirage,
        n > 0 && interval != 0 && url.len() > 0 && nodes[at[n - 1] as int] is Mirage ==> checks_for(
            nodes,
            at,
            n,
            url,
            interval,
        ) == checks_for(nodes, at, n - 1, url, interval).push(CheckView { node: at[n - 1], url, interval }),
        n > 0 && !(nodes[at[n - 1] as int] is Mirage) ==> checks_for(nodes, at, n, url, interval) == checks_for(
            nodes,
            at,
            n - 1,
            url,
            interval,
        ),
    decreases n,
{
    if n > 0 && interval != 0 && url.len() > 0 {
        law_checks(nodes, at, n - 1, url, interval, c);
        let s = checks_for(nodes, at, n - 1, url, interval);
        let x = CheckView { node: at[n - 1], url, interval };
        assert(s.push(x).contains(c) <==> s.contains(c) || c == x) by {
            if s.contains(c) {
                assert(s.push(x)[s.index_of(c)] == c);
            }
            assert(s.push(x)[s.len() as int] == x);
        }
    }
}

/// Nothing of what was built is lost or moved.
pub open spec fn keeps(a: Built, b: Built) -> bool {
    &&& a.nodes.len() <= b.nodes.len()
    &&& b.nodes.take(a.nodes.len() as int) == a.nodes
    &&& forall|t: Seq<char>| #[trigger] a.index.dom().contains(t) ==> b.index.dom().contains(t) && b.index[t] == a.index[t]
}

/// Under the name of a configuration stands what is made of it, with the outbounds of the names that it
/// refers to as its members.
pub open spec fn stands(b: Built, c: OutboundConfig) -> bool {
    &&& ready(b, c)
    &&& b.index.dom().contains(c.name())
    &&& b.index[c.name()] < b.nodes.len()
    &&& made(c, places(b, c)) == Ok::<NodeView, Seq<char>>(b.nodes[b.index[c.name()] as int])
}

proof fn lemma_still_stands(a: Built, b: Built, c: OutboundConfig)
    requires
        keeps(a, b),
        stands(a, c),
    ensures
        stands(b, c),
{
    assert forall|i: int| 0 <= i < c.refs().len() implies b.index.dom().contains(#[trigger] c.refs()[i]) && b.index[c.refs()[i]]
        == a.index[c.refs()[i]] by {
        assert(a.index.dom().contains(c.refs()[i]));
    }
    assert(places(a, c) =~= places(b, c));
    let i = a.index[c.name()] as int;
    assert(b.nodes.take(a.nodes.len() as int)[i] == b.nodes[i]);
}

proof fn lemma_keeps_trans(a: Built, b: Built, c: Built)
    requires
        keeps(a, b),
        keeps(b, c),
    ensures
        keeps(a, c),
{
    let n = a.nodes.len() as int;
    assert(c.nodes.take(n) =~= c.nodes.take(b.nodes.len() as int).take(n));
    assert forall|t: Seq<char>| #[trigger] a.index.dom().contains(t) implies c.index.dom().contains(t) && c.index[t]
        == a.index[t] by {
        assert(b.index.dom().contains(t));
    }
}

proof fn lemma_added_stands(b: Built, c: OutboundConfig)
    requires
        ready(b, c),
        !b.index.dom().contains(c.name()),
        added(b, c) is Ok,
        b.nodes.len() < usize::MAX,
    ensures
        keeps(b, added(b, c)->Ok_0),
        stands(added(b, c)->Ok_0, c),
        added(b, c)->Ok_0.nodes.len() == b.nodes.len() + 1,
        added(b, c)->Ok_0.index.dom() == b.index.dom().insert(c.name()),
{
    let x = added(b, c)->Ok_0;
    assert(x.nodes.take(b.nodes.len() as int) =~= b.nodes);
    assert forall|i: int| 0 <= i < c.refs().len() implies x.index.dom().contains(#[trigger] c.refs()[i]) && x.index[c.refs()[i]]
        == b.index[c.refs()[i]] by {
        assert(b.index.dom().contains(c.refs()[i]));
    }
    assert(places(x, c) =~= places(b, c));
}

/// No two configurations have the same name, and none that waits has the name of an outbound that is
/// always there.
pub open spec fn distinct_configs(cfgs: Seq<OutboundConfig>) -> bool {
    &&& forall|i: int, j: int| 0 <= i < j < cfgs.len() ==> (#[trigger] cfgs[i]).name() != (#[trigger] cfgs[j]).name()
    &&& forall|i: int| 0 <= i < cfgs.len() && (#[trigger] cfgs[i]).waits() ==> cfgs[i].name() != "direct"@ && cfgs[i].name()
        != "block"@
}

proof fn lemma_first_pass_stands(cfgs: Seq<OutboundConfig>, n: int)
    requires
        0 <= n <= cfgs.len(),
        cfgs.len() + 2 <= usize::MAX,
        distinct_configs(cfgs),
        first_pass(cfgs, n) is Ok,
    ensures
        ({
            let b = first_pass(cfgs, n)->Ok_0;
            &&& b.nodes.len() <= n
            &&& forall|k: int| 0 <= k < n && !(#[trigger] cfgs[k]).waits() ==> stands(b, cfgs[k])
            &&& forall|t: Seq<char>| #[trigger]
                b.index.dom().contains(t) ==> exists|k: int| 0 <= k < n && (#[trigger] cfgs[k]).name() == t && !cfgs[k].waits()
        }),
    decreases n,
{
    if n > 0 {
        lemma_first_pass_stands(cfgs, n - 1);
        let a = first_pass(cfgs, n - 1)->Ok_0;
        let b = first_pass(cfgs, n)->Ok_0;
        let c = cfgs[n - 1];
        if !c.waits() {
            assert(c.refs().len() == 0);
            if a.index.dom().contains(c.name()) {
                let k = choose|k: int| 0 <= k < n - 1 && (#[trigger] cfgs[k]).name() == c.name() && !cfgs[k].waits();
                assert(cfgs[k].name() != cfgs[n - 1].name());
            }
            lemma_added_stands(a, c);
            assert forall|k: int| 0 <= k < n && !(#[trigger] cfgs[k]).waits() implies stands(b, cfgs[k]) by {
                if k < n - 1 {
                    lemma_still_stands(a, b, cfgs[k]);
                }
            }
            assert forall|t: Seq<char>| #[trigger] b.index.dom().contains(t) implies exists|k: int|
                0 <= k < n && (#[trigger] cfgs[k]).name() == t && !cfgs[k].waits() by {
                if t == c.name() {
                    assert(cfgs[n - 1].name() == t);
                } else {
                    assert(a.index.dom().contains(t));
                }
            }
        }
    }
}

/// The places of waiting configurations, none twice, and none of them built yet.
pub open spec fn still_waiting(cfgs: Seq<OutboundConfig>, p: Seq<usize>, b: Built) -> bool {
    &&& forall|j: int| 0 <= j < p.len() ==> (#[trigger] p[j]) < cfgs.len() && !b.index.dom().contains(cfgs[p[j] as int].name())
    &&& forall|i: int, j: int| 0 <= i < j < p.len() ==> #[trigger] p[i] != #[trigger] p[j]
}

proof fn lemma_round_stands(cfgs: Seq<OutboundConfig>, pending: Seq<usize>, b: Built, n: int)
    requires
        0 <= n <= pending.len(),
        distinct_configs(cfgs),
        still_waiting(cfgs, pending, b),
        b.nodes.len() + pending.len() < usize::MAX,
        one_round(cfgs, pending, b, n) is Ok,
    ensures
        ({
            let x = one_round(cfgs, pending, b, n)->Ok_0;
            &&& keeps(b, x.0)
            &&& x.0.nodes.len() + x.1.len() == b.nodes.len() + n
            &&& forall|j: int| 0 <= j < n ==> x.1.contains(#[trigger] pending[j]) || stands(x.0, cfgs[pending[j] as int])
            &&& forall|j: int| 0 <= j < x.1.len() ==> pending.take(n).contains(#[trigger] x.1[j])
            &&& still_waiting(cfgs, x.1 + pending.skip(n), x.0)
        }),
    decreases n,
{
    if n == 0 {
        assert(b.nodes.take(b.nodes.len() as int) =~= b.nodes);
        assert(Seq::<usize>::empty() + pending.skip(0) =~= pending);
    } else {
        lemma_round_stands(cfgs, pending, b, n - 1);
        let y = one_round(cfgs, pending, b, n - 1)->Ok_0;
        let x = one_round(cfgs, pending, b, n)->Ok_0;
        let i = pending[n - 1];
        let c = cfgs[i as int];
        let rest = y.1 + pending.skip(n - 1);
        let m = y.1.len() as int;
        assert(rest[m] == i);
        assert forall|j: int| 0 <= j < x.1.len() implies pending.take(n).contains(#[trigger] x.1[j]) by {
            if j < m {
                assert(x.1[j] == y.1[j]);
                let k = pending.take(n - 1).index_of(y.1[j]);
                assert(pending.take(n)[k] == y.1[j]);
            } else {
                assert(pending.take(n)[n - 1] == i);
            }
        }
        let next = x.1 + pending.skip(n);
        if ready(y.0, c) {
            lemma_added_stands(y.0, c);
            lemma_keeps_trans(b, y.0, x.0);
            assert forall|j: int| 0 <= j < n implies x.1.contains(#[trigger] pending[j]) || stands(
                x.0,
                cfgs[pending[j] as int],
            ) by {
                if j < n - 1 && !y.1.contains(pending[j]) {
                    lemma_still_stands(y.0, x.0, cfgs[pending[j] as int]);
                }
            }
            assert forall|j: int| 0 <= j < next.len() implies (#[trigger] next[j]) < cfgs.len() && !x.0.index.dom().contains(
                cfgs[next[j] as int].name(),
            ) by {
                let k = if j < m {
                    j
                } else {
                    j + 1
                };
                assert(next[j] == rest[k]);
                assert(rest[k] != rest[m]);
                let (u, v) = (rest[k] as int, i as int);
                assert(cfgs[u].name() != cfgs[v].name());
            }
            assert forall|p: int, q: int| 0 <= p < q < next.len() implies #[trigger] next[p] != #[trigger] next[q] by {
                let p2 = if p < m {
                    p
                } else {
                    p + 1
                };
                let q2 = if q < m {
                    q
                } else {
                    q + 1
                };
                assert(next[p] == rest[p2] && next[q] == rest[q2]);
            }
        } else {
            assert(next =~= rest);
            assert forall|j: int| 0 <= j < n implies x.1.contains(#[trigger] pending[j]) || stands(
                x.0,
                cfgs[pending[j] as int],
            ) by {
                if j < n - 1 {
                    if y.1.contains(pending[j]) {
                        let k = y.1.index_of(pending[j]);
                        assert(x.1[k] == pending[j]);
                    }
                } else {
                    assert(x.1[m] == i);
                }
            }
        }
    }
}

proof fn lemma_rounds_stand(cfgs: Seq<OutboundConfig>, pending: Seq<usize>, b: Built)
    requires
        distinct_configs(cfgs),
        still_waiting(cfgs, pending, b),
        b.nodes.len() + pending.len() < usize::MAX,
        all_rounds(cfgs, pending, b) is Ok,
    ensures
        ({
            let x = all_rounds(cfgs, pending, b)->Ok_0;
            &&& keeps(b, x)
            &&& forall|j: int| 0 <= j < pending.len() ==> stands(x, cfgs[#[trigger] pending[j] as int])
        }),
    decreases pending.len(),
{
    let n = pending.len() as int;
    if n == 0 {
        assert(b.nodes.take(b.nodes.len() as int) =~= b.nodes);
    } else {
        lemma_round_stands(cfgs, pending, b, n);
        let x = one_round(cfgs, pending, b, n)->Ok_0;
        assert(x.1 + pending.skip(n) =~= x.1);
        lemma_rounds_stand(cfgs, x.1, x.0);
        let z = all_rounds(cfgs, pending, b)->Ok_0;
        lemma_keeps_trans(b, x.0, z);
        assert forall|j: int| 0 <= j < n implies stands(z, cfgs[#[trigger] pending[j] as int]) by {
            if x.1.contains(pending[j]) {
                let k = x.1.index_of(pending[j]);
                assert(stands(z, cfgs[x.1[k] as int]));
            } else {
                lemma_still_stands(x.0, z, cfgs[pending[j] as int]);
            }
        }
    }
}

proof fn lemma_defaults_keep(b: Built)
    requires
        b.nodes.len() + 2 <= usize::MAX,
    ensures
        keeps(b, with_defaults(b)),
        with_defaults(b).nodes.len() <= b.nodes.len() + 2,
        with_defaults(b).index.dom() == b.index.dom().insert("direct"@).insert("block"@),
        !b.index.dom().contains("direct"@) ==> with_defaults(b).nodes[with_defaults(b).index["direct"@] as int]
            == (NodeView::Direct { tag: "direct"@ }),
        !b.index.dom().contains("block"@) && "block"@ != "direct"@ ==> with_defaults(b).nodes[with_defaults(
            b,
        ).index["block"@] as int] == (NodeView::Block { tag: "block"@ }),
{
    let a = with_default(b, NodeView::Direct { tag: "direct"@ }, "direct"@);
    assert(a.nodes.take(b.nodes.len() as int) =~= b.nodes);
    assert(with_defaults(b).nodes.take(b.nodes.len() as int) =~= b.nodes);
    assert(with_defaults(b).index.dom() =~= b.index.dom().insert("direct"@).insert("block"@));
}

proof fn lemma_waiting_distinct(cfgs: Seq<OutboundConfig>, n: int)
    requires
        0 <= n <= cfgs.len() <= usize::MAX,
    ensures
        waiting(cfgs, n).len() <= n,
        forall|i: int, j: int| 0 <= i < j < waiting(cfgs, n).len() ==> #[trigger] waiting(cfgs, n)[i] != #[trigger] waiting(
            cfgs,
            n,
        )[j],
        forall|k: int| 0 <= k < n && (#[trigger] cfgs[k]).waits() ==> waiting(cfgs, n).contains(k as usize),
    decreases n,
{
    if n > 0 {
        lemma_waiting_distinct(cfgs, n - 1);
        lemma_waiting_bounds(cfgs, n - 1);
        let w = waiting(cfgs, n - 1);
        let v = waiting(cfgs, n);
        assert forall|i: int, j: int| 0 <= i < j < v.len() implies #[trigger] v[i] != #[trigger] v[j] by {
            assert(v[i] == w[i]);
            assert(w[i] < n - 1);
            if j < w.len() {
                assert(v[j] == w[j]);
            }
        }
        assert forall|k: int| 0 <= k < n && (#[trigger] cfgs[k]).waits() implies v.contains(k as usize) by {
            if k < n - 1 {
                let i = w.index_of(k as usize);
                assert(v[i] == k as usize);
            } else {
                assert(v[w.len() as int] == k as usize);
            }
        }
    }
}

/// Where building succeeds, each name leads to what is configured for it, and each group has as its
/// members the outbounds of the names that it lists, in that order.
pub proof fn law_built_as_configured(cfgs: Seq<OutboundConfig>, k: int)
    requires
        2 * cfgs.len() + 4 <= usize::MAX,
        distinct_configs(cfgs),
        0 <= k < cfgs.len(),
        built(cfgs) is Ok,
    ensures
        ({
            let b = built(cfgs)->Ok_0;
            let c = cfgs[k];
            &&& b.index.dom().contains(c.name())
            &&& b.index[c.name()] < b.nodes.len()
            &&& forall|i: int| 0 <= i < c.refs().len() ==> b.index.dom().contains(#[trigger] c.refs()[i])
            &&& made(c, Seq::new(c.refs().len(), |i: int| b.index[c.refs()[i]])) == Ok::<NodeView, Seq<char>>(
                b.nodes[b.index[c.name()] as int],
            )
        }),
{
    let n = cfgs.len() as int;
    let a = first_pass(cfgs, n)->Ok_0;
    let d = with_defaults(a);
    let w = waiting(cfgs, n);
    lemma_first_pass_stands(cfgs, n);
    lemma_defaults_keep(a);
    lemma_waiting_bounds(cfgs, n);
    lemma_waiting_distinct(cfgs, n);
    assert forall|j: int| 0 <= j < w.len() implies (#[trigger] w[j]) < cfgs.len() && !d.index.dom().contains(
        cfgs[w[j] as int].name(),
    ) by {
        let c = cfgs[w[j] as int];
        assert(c.waits());
        if a.index.dom().contains(c.name()) {
            let m = choose|m: int| 0 <= m < n && (#[trigger] cfgs[m]).name() == c.name() && !cfgs[m].waits();
            let v = w[j] as int;
            assert(m != v);
            assert(cfgs[m].name() != cfgs[v].name());
        }
    }
    lemma_rounds_stand(cfgs, w, d);
    let b = built(cfgs)->Ok_0;
    if cfgs[k].waits() {
        let j = w.index_of(k as usize);
        assert(stands(b, cfgs[w[j] as int]));
    } else {
        lemma_keeps_trans(a, d, b);
        lemma_still_stands(a, b, cfgs[k]);
    }
    assert(places(b, cfgs[k]) =~= Seq::new(cfgs[k].refs().len(), |i: int| b.index[cfgs[k].refs()[i]]));
}

proof fn lemma_ciphers_good_first(cfgs: Seq<OutboundConfig>, n: int)
    requires
        0 <= n <= cfgs.len(),
        forall|i: int| 0 <= i < cfgs.len() && (#[trigger] cfgs[i]) is Shadowsocks ==> method_text(cfgs[i]->method@) is Some,
    ensures
        first_pass(cfgs, n) is Ok,
    decreases n,
{
    if n > 0 {
        lemma_ciphers_good_first(cfgs, n - 1);
        assert(cfgs[n - 1] is Shadowsocks ==> method_text(cfgs[n - 1]->method@) is Some);
    }
}

proof fn lemma_ciphers_good_round(cfgs: Seq<OutboundConfig>, pending: Seq<usize>, b: Built, n: int)
    requires
        0 <= n <= pending.len(),
        forall|j: int| 0 <= j < pending.len() ==> (#[trigger] pending[j]) < cfgs.len(),
        forall|i: int| 0 <= i < cfgs.len() && (#[trigger] cfgs[i]) is Shadowsocks ==> method_text(cfgs[i]->method@) is Some,
    ensures
        one_round(cfgs, pending, b, n) is Ok,
        forall|j: int|
            0 <= j < one_round(cfgs, pending, b, n)->Ok_0.1.len() ==> (#[trigger] one_round(cfgs, pending, b, n)->Ok_0.1[j])
                < cfgs.len(),
    decreases n,
{
    if n > 0 {
        lemma_ciphers_good_round(cfgs, pending, b, n - 1);
        assert(pending[n - 1] < cfgs.len());
        let c = cfgs[pending[n - 1] as int];
        assert(c is Shadowsocks ==> method_text(c->method@) is Some);
    }
}

proof fn lemma_ciphers_good_rounds(cfgs: Seq<OutboundConfig>, pending: Seq<usize>, b: Built)
    requires
        forall|j: int| 0 <= j < pending.len() ==> (#[trigger] pending[j]) < cfgs.len(),
        forall|i: int| 0 <= i < cfgs.len() && (#[trigger] cfgs[i]) is Shadowsocks ==> method_text(cfgs[i]->method@) is Some,
    ensures
        !(all_rounds(cfgs, pending, b) matches Err(BuildFailure::Cipher(_))),
        all_rounds(cfgs, pending, b) matches Err(BuildFailure::Unresolved(p)) ==> forall|j: int|
            0 <= j < p.len() ==> (#[trigger] p[j]) < cfgs.len(),
    decreases pending.len(),
{
    if pending.len() > 0 {
        let n = pending.len() as int;
        lemma_ciphers_good_round(cfgs, pending, b, n);
        let x = one_round(cfgs, pending, b, n)->Ok_0;
        if x.1.len() < pending.len() {
            lemma_ciphers_good_rounds(cfgs, x.1, x.0);
        }
    }
}

/// A configuration whose ciphers are known and whose references lead to configured names, or to the two
/// that are always there, without a circle is built, in whatever order it lists the outbounds. That
/// there is no circle is shown by ranks: each outbound refers to names of lower rank only.
pub proof fn law_sound_configuration_built(cfgs: Seq<OutboundConfig>, rank: spec_fn(Seq<char>) -> nat)
    requires
        cfgs.len() <= usize::MAX,
        forall|i: int| 0 <= i < cfgs.len() && (#[trigger] cfgs[i]) is Shadowsocks ==> method_text(cfgs[i]->method@) is Some,
        forall|i: int, j: int|
            0 <= i < cfgs.len() && 0 <= j < cfgs[i].refs().len() ==> (#[trigger] cfgs[i].refs()[j]) == "direct"@ || cfgs[i].refs()[j]
                == "block"@ || (rank(cfgs[i].refs()[j]) < rank(cfgs[i].name()) && exists|m: int|
                0 <= m < cfgs.len() && (#[trigger] cfgs[m]).name() == cfgs[i].refs()[j]),
    ensures
        built(cfgs) is Ok,
{
    let n = cfgs.len() as int;
    lemma_ciphers_good_first(cfgs, n);
    lemma_waiting_bounds(cfgs, n);
    let d = with_defaults(first_pass(cfgs, n)->Ok_0);
    lemma_ciphers_good_rounds(cfgs, waiting(cfgs, n), d);
    if built(cfgs) is Err {
        law_unresolved_reason(cfgs);
        let p = built(cfgs)->Err_0->Unresolved_0;
        let b = choose|b: Built|
            d.index.dom().subset_of(b.index.dom()) && (forall|j: int|
                0 <= j < p.len() ==> !ready(b, cfgs[#[trigger] p[j] as int])) && #[trigger] rest_built(cfgs, p, b);
        assert(d.index.dom().contains("direct"@));
        assert(d.index.dom().contains("block"@));
        let r = lemma_lowest_ready(cfgs, rank, p, b, 0);
        assert(!ready(b, cfgs[p[r] as int]));
    }
}

proof fn lemma_lowest_ready(
    cfgs: Seq<OutboundConfig>,
    rank: spec_fn(Seq<char>) -> nat,
    p: Seq<usize>,
    b: Built,
    j: int,
) -> (r: int)
    requires
        cfgs.len() <= usize::MAX,
        forall|i: int, j: int|
            0 <= i < cfgs.len() && 0 <= j < cfgs[i].refs().len() ==> (#[trigger] cfgs[i].refs()[j]) == "direct"@ || cfgs[i].refs()[j]
                == "block"@ || (rank(cfgs[i].refs()[j]) < rank(cfgs[i].name()) && exists|m: int|
                0 <= m < cfgs.len() && (#[trigger] cfgs[m]).name() == cfgs[i].refs()[j]),
        forall|j: int| 0 <= j < p.len() ==> (#[trigger] p[j]) < cfgs.len(),
        rest_built(cfgs, p, b),
        b.index.dom().contains("direct"@),
        b.index.dom().contains("block"@),
        0 <= j < p.len(),
    ensures
        0 <= r < p.len(),
        ready(b, cfgs[p[r] as int]),
    decreases rank(cfgs[p[j] as int].name()),
{
    let i = p[j] as int;
    assert(p[j] < cfgs.len());
    if ready(b, cfgs[i]) {
        j
    } else {
        let m = choose|m: int| 0 <= m < cfgs[i].refs().len() && !b.index.dom().contains(#[trigger] cfgs[i].refs()[m]);
        let t = cfgs[i].refs()[m];
        let k = choose|k: int| 0 <= k < cfgs.len() && (#[trigger] cfgs[k]).name() == t;
        assert(cfgs[k].name() == t);
        assert(p.contains(k as usize));
        lemma_lowest_ready(cfgs, rank, p, b, p.index_of(k as usize))
    }
}

} // verus!
