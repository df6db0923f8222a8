//! Outbounds: the ways out of the proxy, groups of them, and the choice among the members of a
//! group.

use vstd::prelude::*;

use crate::ip::IpAddr;
use crate::pool::{median, BrutalState, PoolConfig, WarmPool, UNHEALTHY_FAILURES};
use crate::shadowsocks::SsConfig;
use crate::text::same_text;
use crate::wg::WgConfig;

verus! {

/// One outbound. The members of a group, and the outbound below another, are given by their places
/// in the list of outbounds.
pub enum OutboundNode {
    Mirage {
        tag: String,
        cfg: PoolConfig,
        brutal: BrutalState,
        pool: WarmPool,
        server_ip: Option<IpAddr>,
        rtt_ms: u64,
        snd_cwnd: u64,
        total_retrans: u64,
        total_segs_out: u64,
    },
    Wireguard { tag: String, peer: WgConfig },
    Direct { tag: String },
    Block { tag: String },
    Shadowsocks { tag: String, server: SsConfig, underlying: Option<usize> },
    Urltest { tag: String, children: Vec<usize>, tolerance_ms: u64, test_type: String },
    Fallback { tag: String, children: Vec<usize> },
    Selector { tag: String, children: Vec<usize> },
    LoadBalance { tag: String, children: Vec<usize> },
}

impl OutboundNode {
    /// The name of the outbound.
    pub open spec fn name(&self) -> Seq<char> {
        match *self {
            OutboundNode::Mirage { tag, .. } => tag@,
            OutboundNode::Wireguard { tag, .. } => tag@,
            OutboundNode::Direct { tag } => tag@,
            OutboundNode::Block { tag } => tag@,
            OutboundNode::Shadowsocks { tag, .. } => tag@,
            OutboundNode::Urltest { tag, .. } => tag@,
            OutboundNode::Fallback { tag, .. } => tag@,
            OutboundNode::Selector { tag, .. } => tag@,
            OutboundNode::LoadBalance { tag, .. } => tag@,
        }
    }

    /// The members of a group; `None` for an outbound that is no group.
    pub open spec fn members(&self) -> Option<Seq<usize>> {
        match *self {
            OutboundNode::Urltest { children, .. } => Some(children@),
            OutboundNode::Fallback { children, .. } => Some(children@),
            OutboundNode::Selector { children, .. } => Some(children@),
            OutboundNode::LoadBalance { children, .. } => Some(children@),
            _ => None,
        }
    }

    /// The outbound below this one.
    pub open spec fn below(&self) -> Option<usize> {
        match *self {
            OutboundNode::Mirage { cfg, .. } => cfg.underlying,
            OutboundNode::Shadowsocks { underlying, .. } => underlying,
            _ => None,
        }
    }

    /// The name of the outbound.
    pub fn tag(&self) -> (r: &str)
        ensures
            r@ == self.name(),
    {
        match self {
            OutboundNode::Mirage { tag, .. } => tag.as_str(),
            OutboundNode::Wireguard { tag, .. } => tag.as_str(),
            OutboundNode::Direct { tag } => tag.as_str(),
            OutboundNode::Block { tag } => tag.as_str(),
            OutboundNode::Shadowsocks { tag, .. } => tag.as_str(),
            OutboundNode::Urltest { tag, .. } => tag.as_str(),
            OutboundNode::Fallback { tag, .. } => tag.as_str(),
            OutboundNode::Selector { tag, .. } => tag.as_str(),
            OutboundNode::LoadBalance { tag, .. } => tag.as_str(),
        }
    }

    /// The members of a group.
    pub fn children(&self) -> (r: Option<&Vec<usize>>)
        ensures
            match r {
                Some(v) => self.members() == Some(v@),
                None => self.members() is None,
            },
    {
        match self {
            OutboundNode::Urltest { children, .. } => Some(children),
            OutboundNode::Fallback { children, .. } => Some(children),
            OutboundNode::Selector { children, .. } => Some(children),
            OutboundNode::LoadBalance { children, .. } => Some(children),
            _ => None,
        }
    }

    /// Whether an outbound that is no group works: a server counts as working until too many
    /// attempts in a row have failed, any other outbound always.
    pub open spec fn works(&self) -> bool {
        match *self {
            OutboundNode::Mirage { pool, .. } => pool.stats.consecutive_failures < UNHEALTHY_FAILURES,
            _ => true,
        }
    }

    /// The round trip time to a server, once it is known.
    pub open spec fn rtt(&self) -> Option<u64> {
        match *self {
            OutboundNode::Mirage { rtt_ms, .. } => if 0 < rtt_ms < u64::MAX {
                Some(rtt_ms)
            } else {
                None
            },
            _ => None,
        }
    }

    /// The latency that the health checks measured.
    pub open spec fn http(&self) -> Option<u64> {
        match *self {
            OutboundNode::Mirage { pool, .. } => median(pool.stats.latency_samples@),
            _ => None,
        }
    }

    fn own_health(&self) -> (r: bool)
        ensures
            r == self.works(),
    {
        match self {
            OutboundNode::Mirage { pool, .. } => pool.stats.is_healthy(),
            _ => true,
        }
    }

    fn own_latency(&self, rtt: bool) -> (r: Option<u64>)
        ensures
            r == if rtt {
                self.rtt()
            } else {
                self.http()
            },
    {
        match self {
            OutboundNode::Mirage { pool, rtt_ms, .. } => {
                if rtt {
                    if *rtt_ms > 0 && *rtt_ms != u64::MAX {
                        Some(*rtt_ms)
                    } else {
                        None
                    }
                } else {
                    pool.stats.latency_ms()
                }
            },
            _ => None,
        }
    }
}

/// Every reference points to an outbound earlier in the list.
pub open spec fn ordered(nodes: Seq<OutboundNode>) -> bool {
    &&& forall|i: int, j: int|
        0 <= i < nodes.len() && nodes[i].members() is Some && 0 <= j < nodes[i].members()->0.len() ==> (
        #[trigger] nodes[i].members()->0[j]) < i
    &&& forall|i: int| 0 <= i < nodes.len() && (#[trigger] nodes[i].below()) is Some ==> nodes[i].below()->0 < i
}

/// Whether an outbound works; a group works where one of its members does.
pub open spec fn healthy(nodes: Seq<OutboundNode>, i: int) -> bool
    decreases i,
{
    match nodes[i].members() {
        None => nodes[i].works(),
        Some(k) => exists|j: int| 0 <= j < k.len() && (#[trigger] k[j]) < i && 0 <= i && healthy(nodes, k[j] as int),
    }
}

/// The members that work, in their order.
pub open spec fn healthy_of(nodes: Seq<OutboundNode>, kids: Seq<usize>) -> Seq<usize> {
    kids.filter(|c: usize| healthy(nodes, c as int))
}

/// What groups remember: the member that a group uses, and how often a group was asked.
#[verifier::ext_equal]
pub struct Picks {
    pub current: Seq<Option<usize>>,
    pub next: Seq<u64>,
}

/// Remembers the member `c` for the group `i`.
pub open spec fn picked(st: Picks, i: int, c: usize) -> Picks {
    Picks { current: st.current.update(i, Some(c)), next: st.next }
}

/// The index of the smallest latency, the first where there are several; -1 where none is known.
pub open spec fn best(lats: Seq<Option<u64>>) -> int
    decreases lats.len(),
{
    if lats.len() == 0 {
        -1
    } else {
        let b = best(lats.drop_last());
        if lats.last() is Some && (b < 0 || lats.last()->0 < lats[b]->0) {
            lats.len() - 1
        } else {
            b
        }
    }
}

/// The member that a group uses now, and what is remembered then; `None` for an outbound that is no
/// group, and for a group that has nobody to choose.
///
/// A test group uses the member with the smallest latency, but stays with the one that it used
/// before while that one is slower by no more than the tolerance; without any latency it stays with
/// a working member or takes the first. A fallback group uses its first working member, a selector
/// the selected one, and a balancing group its working members in turn.
pub open spec fn choice(nodes: Seq<OutboundNode>, st: Picks, i: int) -> Option<(Picks, usize)>
    decreases i, 2int, 0int,
{
    match nodes[i] {
        OutboundNode::Urltest { children, tolerance_ms, test_type, .. } => {
            let rtt = test_type@ == "rtt"@;
            let can = healthy_of(nodes, children@);
            if can.len() == 0 {
                None
            } else {
                let l = latencies(nodes, st, i, can, can.len() as int, rtt);
                let b = best(l.1);
                if b < 0 {
                    match l.0.current[i] {
                        Some(c) => if healthy(nodes, c as int) {
                            Some((l.0, c))
                        } else {
                            Some((picked(l.0, i, can[0]), can[0]))
                        },
                        None => Some((picked(l.0, i, can[0]), can[0])),
                    }
                } else {
                    match l.0.current[i] {
                        Some(c) => {
                            let m = latency_below(nodes, l.0, i, c, rtt);
                            if m.1 is Some && m.1->0 <= l.1[b]->0 + tolerance_ms {
                                Some((m.0, c))
                            } else {
                                Some((picked(m.0, i, can[b]), can[b]))
                            }
                        },
                        None => Some((picked(l.0, i, can[b]), can[b])),
                    }
                }
            }
        },
        OutboundNode::Fallback { children, .. } => {
            let can = healthy_of(nodes, children@);
            if can.len() > 0 {
                Some((st, can[0]))
            } else if children@.len() > 0 {
                Some((st, children@[0]))
            } else {
                None
            }
        },
        OutboundNode::Selector { children, .. } => match st.current[i] {
            Some(c) => Some((st, c)),
            None => if children@.len() > 0 {
                Some((st, children@[0]))
            } else {
                None
            },
        },
        OutboundNode::LoadBalance { children, .. } => {
            let can = healthy_of(nodes, children@);
            if can.len() > 0 {
                Some((counted(st, i), can[st.next[i] as int % can.len() as int]))
            } else if children@.len() > 0 {
                Some((st, children@[0]))
            } else {
                None
            }
        },
        _ => None,
    }
}

/// Counts one more request to the group `i`.
pub open spec fn counted(st: Picks, i: int) -> Picks {
    Picks { current: st.current, next: st.next.update(i, ((st.next[i] + 1) % 0x1_0000_0000_0000_0000) as u64) }
}

/// The outbound that an outbound comes down to, through all its groups, and what the groups on the
/// way remember afterwards.
pub open spec fn leaf(nodes: Seq<OutboundNode>, st: Picks, i: int) -> (Picks, int)
    decreases i, 3int, 0int,
{
    match choice(nodes, st, i) {
        None => (st, i),
        Some(x) => if 0 <= i && x.1 < i {
            leaf(nodes, x.0, x.1 as int)
        } else {
            (x.0, i)
        },
    }
}

/// The latencies of the first `n` members in `kids`, asked one after another.
pub open spec fn latencies(nodes: Seq<OutboundNode>, st: Picks, i: int, kids: Seq<usize>, n: int, rtt: bool) -> (
    Picks,
    Seq<Option<u64>>,
)
    decreases i, 1int, n,
{
    if n <= 0 {
        (st, seq![])
    } else {
        let l = latencies(nodes, st, i, kids, n - 1, rtt);
        let m = latency_below(nodes, l.0, i, kids[n - 1], rtt);
        (m.0, l.1.push(m.1))
    }
}

/// The latency of the member `c` of the group `i`.
pub open spec fn latency_below(nodes: Seq<OutboundNode>, st: Picks, i: int, c: usize, rtt: bool) -> (
    Picks,
    Option<u64>,
)
    decreases i, 0int, 0int,
{
    if 0 <= i && c < i {
        latency(nodes, st, c as int, rtt)
    } else {
        (st, None)
    }
}

/// One kind of latency of an outbound; that of a group is the latency of what it comes down to.
pub open spec fn latency_of(nodes: Seq<OutboundNode>, st: Picks, i: int, rtt: bool) -> (Picks, Option<u64>)
    decreases i, 4int, 0int,
{
    if nodes[i].members() is None {
        (
            st,
            if rtt {
                nodes[i].rtt()
            } else {
                nodes[i].http()
            },
        )
    } else {
        let l = leaf(nodes, st, i);
        if 0 <= l.1 < i {
            latency_of(nodes, l.0, l.1, rtt)
        } else {
            (l.0, None)
        }
    }
}

/// The latency by which a test group judges: the round trip time where it is asked for and known,
/// else what the health checks measured.
pub open spec fn latency(nodes: Seq<OutboundNode>, st: Picks, i: int, rtt: bool) -> (Picks, Option<u64>)
    decreases i, 5int, 0int,
{
    if rtt {
        let a = latency_of(nodes, st, i, true);
        if a.1 is Some {
            a
        } else {
            latency_of(nodes, a.0, i, false)
        }
    } else {
        latency_of(nodes, st, i, false)
    }
}

/// What the groups remember.
pub struct GroupState {
    pub current: Vec<Option<usize>>,
    pub next: Vec<u64>,
}

impl View for GroupState {
    type V = Picks;

    open spec fn view(&self) -> Picks {
        Picks { current: self.current@, next: self.next@ }
    }
}

impl GroupState {
    /// There is an entry for each outbound, and what a group uses stands before it in the list.
    pub open spec fn fits(&self, n: int) -> bool {
        picks_fit(self@, n)
    }
}

proof fn lemma_best(lats: Seq<Option<u64>>)
    ensures
        -1 <= best(lats) < lats.len(),
        best(lats) >= 0 ==> lats[best(lats)] is Some,
    decreases lats.len(),
{
    if lats.len() > 0 {
        lemma_best(lats.drop_last());
        let b = best(lats.drop_last());
        if b >= 0 {
            assert(lats.drop_last()[b] == lats[b]);
        }
    }
}

/// The chosen latency is the smallest one known, and there is one where any is known.
pub proof fn law_best_is_smallest(lats: Seq<Option<u64>>, k: int)
    requires
        0 <= k < lats.len(),
        lats[k] is Some,
    ensures
        0 <= best(lats) < lats.len(),
        lats[best(lats)] is Some,
        lats[best(lats)]->0 <= lats[k]->0,
        k < best(lats) ==> lats[best(lats)]->0 < lats[k]->0,
    decreases lats.len(),
{
    lemma_best(lats);
    let b = best(lats.drop_last());
    lemma_best(lats.drop_last());
    if b >= 0 {
        assert(lats.drop_last()[b] == lats[b]);
    }
    if k < lats.len() - 1 {
        assert(lats.drop_last()[k] == lats[k]);
        law_best_is_smallest(lats.drop_last(), k);
    }
}

fn best_index(lats: &Vec<Option<u64>>) -> (r: Option<usize>)
    ensures
        match r {
            Some(b) => b == best(lats@),
            None => best(lats@) < 0,
        },
{
    let mut b: Option<usize> = None;
    let mut k: usize = 0;
    assert(lats@.take(0) =~= seq![]);
    while k < lats.len()
        invariant
            k <= lats@.len(),
            match b {
                Some(x) => x == best(lats@.take(k as int)) && x < k && lats@[x as int] is Some,
                None => best(lats@.take(k as int)) < 0,
            },
        decreases lats@.len() - k,
    {
        proof {
            assert(lats@.take(k + 1).drop_last() =~= lats@.take(k as int));
            assert(lats@.take(k + 1).last() == lats@[k as int]);
            if b is Some {
                assert(lats@.take(k + 1)[b->0 as int] == lats@[b->0 as int]);
            }
        }
        match lats[k] {
            Some(l) => {
                match b {
                    None => {
                        b = Some(k);
                    },
                    Some(x) => {
                        match lats[x] {
                            Some(y) => {
                                if l < y {
                                    b = Some(k);
                                }
                            },
                            None => {},
                        }
                    },
                }
            },
            None => {},
        }
        k = k + 1;
    }
    assert(lats@.take(k as int) =~= lats@);
    b
}

/// Whether an outbound works.
pub fn is_healthy(nodes: &Vec<OutboundNode>, i: usize) -> (r: bool)
    requires
        i < nodes@.len(),
        ordered(nodes@),
    ensures
        r == healthy(nodes@, i as int),
    decreases i,
{
    match nodes[i].children() {
        None => nodes[i].own_health(),
        Some(kids) => {
            let mut j: usize = 0;
            while j < kids.len()
                invariant
                    i < nodes@.len(),
                    ordered(nodes@),
                    nodes@[i as int].members() == Some(kids@),
                    j <= kids@.len(),
                    forall|k: int| 0 <= k < j ==> !healthy(nodes@, #[trigger] kids@[k] as int),
                decreases kids@.len() - j,
            {
                assert(nodes@[i as int].members()->0[j as int] < i);
                if is_healthy(nodes, kids[j]) {
                    assert(kids@[j as int] < i);
                    return true;
                }
                j = j + 1;
            }
            false
        },
    }
}

fn healthy_members(nodes: &Vec<OutboundNode>, kids: &Vec<usize>) -> (r: Vec<usize>)
    requires
        ordered(nodes@),
        forall|k: int| 0 <= k < kids@.len() ==> kids@[k] < nodes@.len(),
    ensures
        r@ == healthy_of(nodes@, kids@),
{
    let mut out: Vec<usize> = Vec::new();
    let mut j: usize = 0;
    let ghost f = |c: usize| healthy(nodes@, c as int);
    proof {
        reveal(Seq::filter);
        assert(kids@.take(0).filter(f) =~= seq![]);
    }
    while j < kids.len()
        invariant
            ordered(nodes@),
            forall|k: int| 0 <= k < kids@.len() ==> kids@[k] < nodes@.len(),
            f == |c: usize| healthy(nodes@, c as int),
            j <= kids@.len(),
            out@ == kids@.take(j as int).filter(f),
        decreases kids@.len() - j,
    {
        proof {
            reveal(Seq::filter);
            assert(kids@.take(j + 1).drop_last() =~= kids@.take(j as int));
            assert(kids@.take(j + 1).last() == kids@[j as int]);
        }
        if is_healthy(nodes, kids[j]) {
            out.push(kids[j]);
        }
        j = j + 1;
    }
    assert(kids@.take(j as int) =~= kids@);
    out
}

proof fn lemma_filter_below(nodes: Seq<OutboundNode>, kids: Seq<usize>, i: int)
    requires
        forall|k: int| 0 <= k < kids.len() ==> (#[trigger] kids[k]) < i,
    ensures
        forall|k: int|
            0 <= k < healthy_of(nodes, kids).len() ==> (#[trigger] healthy_of(nodes, kids)[k]) < i && healthy(
                nodes,
                healthy_of(nodes, kids)[k] as int,
            ),
{
    let f = |c: usize| healthy(nodes, c as int);
    assert forall|k: int| 0 <= k < healthy_of(nodes, kids).len() implies (#[trigger] healthy_of(nodes, kids)[k]) < i
        && healthy(nodes, healthy_of(nodes, kids)[k] as int) by {
        let x = kids.filter(f)[k];
        kids.lemma_filter_pred(f, k);
        assert(kids.filter(f).contains(x));
        kids.lemma_filter_contains_rev(f, x);
        let m = kids.index_of(x);
        assert(kids[m] == x);
    }
}

/// What an outbound comes down to is itself or stands before it in the list.
pub proof fn law_leaf_bound(nodes: Seq<OutboundNode>, st: Picks, i: int)
    requires
        0 <= i,
    ensures
        0 <= leaf(nodes, st, i).1 <= i,
    decreases i,
{
    match choice(nodes, st, i) {
        None => {},
        Some(x) => if x.1 < i {
            law_leaf_bound(nodes, x.0, x.1 as int);
        },
    }
}

/// Finds the member that a group uses now.
pub fn choose_member(nodes: &Vec<OutboundNode>, st: &mut GroupState, i: usize) -> (r: Option<usize>)
    requires
        i < nodes@.len(),
        ordered(nodes@),
        old(st).fits(nodes@.len() as int),
    ensures
        final(st).fits(nodes@.len() as int),
        match choice(nodes@, old(st)@, i as int) {
            None => r is None && final(st)@ == old(st)@,
            Some(x) => r == Some(x.1) && final(st)@ == x.0 && x.1 < i,
        },
    decreases i, 2int, 0int,
{
    proof {
        if nodes@[i as int].members() is Some {
            let kids = nodes@[i as int].members()->0;
            assert forall|k: int| 0 <= k < kids.len() implies (#[trigger] kids[k]) < i by {
                assert(nodes@[i as int].members()->0[k] < i);
            }
            lemma_filter_below(nodes@, kids, i as int);
        }
    }
    let can: Vec<usize> = match nodes[i].children() {
        Some(kids) => healthy_members(nodes, kids),
        None => Vec::new(),
    };
    match &nodes[i] {
        OutboundNode::Urltest { tolerance_ms, test_type, .. } => {
            if can.len() == 0 {
                return None;
            }
            let rtt: bool = same_text(test_type.as_str(), "rtt");
            let lats: Vec<Option<u64>> = measure(nodes, st, i, &can, rtt);
            proof {
                lemma_best(lats@);
            }
            match best_index(&lats) {
                None => {
                    match st.current[i] {
                        Some(c) => {
                            if is_healthy(nodes, c) {
                                return Some(c);
                            }
                        },
                        None => {},
                    }
                    st.current.set(i, Some(can[0]));
                    Some(can[0])
                },
                Some(b) => {
                    let low: u64 = match lats[b] {
                        Some(l) => l,
                        None => 0,
                    };
                    match st.current[i] {
                        Some(c) => {
                            let l: Option<u64> = latency_ms(nodes, st, c, rtt);
                            match l {
                                Some(l) => {
                                    if l as u128 <= low as u128 + *tolerance_ms as u128 {
                                        return Some(c);
                                    }
                                },
                                None => {},
                            }
                        },
                        None => {},
                    }
                    st.current.set(i, Some(can[b]));
                    Some(can[b])
                },
            }
        },
        OutboundNode::Fallback { children, .. } => {
            if can.len() > 0 {
                return Some(can[0]);
            }
            if children.len() > 0 {
                assert(nodes@[i as int].members()->0[0] < i);
                return Some(children[0]);
            }
            None
        },
        OutboundNode::Selector { children, .. } => {
            match st.current[i] {
                Some(c) => {
                    return Some(c);
                },
                None => {},
            }
            if children.len() > 0 {
                assert(nodes@[i as int].members()->0[0] < i);
                return Some(children[0]);
            }
            None
        },
        OutboundNode::LoadBalance { children, .. } => {
            if can.len() > 0 {
                let n: u64 = st.next[i];
                st.next.set(i, n.wrapping_add(1));
                let k: usize = (n % can.len() as u64) as usize;
                return Some(can[k]);
            }
            if children.len() > 0 {
                assert(nodes@[i as int].members()->0[0] < i);
                return Some(children[0]);
            }
            None
        },
        _ => None,
    }
}

/// Finds what an outbound comes down to.
pub fn resolve(nodes: &Vec<OutboundNode>, st: &mut GroupState, i: usize) -> (r: usize)
    requires
        i < nodes@.len(),
        ordered(nodes@),
        old(st).fits(nodes@.len() as int),
    ensures
        final(st).fits(nodes@.len() as int),
        (final(st)@, r as int) == leaf(nodes@, old(st)@, i as int),
        r <= i,
    decreases i, 3int, 0int,
{
    proof {
        law_leaf_bound(nodes@, st@, i as int);
    }
    match choose_member(nodes, st, i) {
        None => i,
        Some(c) => resolve(nodes, st, c),
    }
}

fn measure(nodes: &Vec<OutboundNode>, st: &mut GroupState, i: usize, kids: &Vec<usize>, rtt: bool) -> (r: Vec<
    Option<u64>,
>)
    requires
        i < nodes@.len(),
        ordered(nodes@),
        old(st).fits(nodes@.len() as int),
        forall|k: int| 0 <= k < kids@.len() ==> (#[trigger] kids@[k]) < i,
    ensures
        final(st).fits(nodes@.len() as int),
        (final(st)@, r@) == latencies(nodes@, old(st)@, i as int, kids@, kids@.len() as int, rtt),
        r@.len() == kids@.len(),
    decreases i, 1int, 0int,
{
    let mut out: Vec<Option<u64>> = Vec::new();
    let mut j: usize = 0;
    let ghost st0 = st@;
    while j < kids.len()
        invariant
            i < nodes@.len(),
            ordered(nodes@),
            st.fits(nodes@.len() as int),
            forall|k: int| 0 <= k < kids@.len() ==> (#[trigger] kids@[k]) < i,
            j <= kids@.len(),
            out@.len() == j,
            (st@, out@) == latencies(nodes@, st0, i as int, kids@, j as int, rtt),
        decreases kids@.len() - j,
    {
        let ghost before = (st@, out@);
        let l: Option<u64> = latency_ms(nodes, st, kids[j], rtt);
        out.push(l);
        proof {
            reveal_with_fuel(latencies, 2);
            reveal_with_fuel(latency_below, 2);
            assert(latency_below(nodes@, before.0, i as int, kids@[j as int], rtt) == (st@, l));
        }
        j = j + 1;
    }
    out
}

/// One kind of latency of an outbound.
pub fn one_latency(nodes: &Vec<OutboundNode>, st: &mut GroupState, i: usize, rtt: bool) -> (r: Option<u64>)
    requires
        i < nodes@.len(),
        ordered(nodes@),
        old(st).fits(nodes@.len() as int),
    ensures
        final(st).fits(nodes@.len() as int),
        (final(st)@, r) == latency_of(nodes@, old(st)@, i as int, rtt),
    decreases i, 4int, 0int,
{
    match nodes[i].children() {
        None => nodes[i].own_latency(rtt),
        Some(_) => {
            let l: usize = resolve(nodes, st, i);
            if l < i {
                one_latency(nodes, st, l, rtt)
            } else {
                None
            }
        },
    }
}

/// The latency of an outbound: the round trip time where it is asked for and known, else what the
/// health checks measured.
pub fn latency_ms(nodes: &Vec<OutboundNode>, st: &mut GroupState, i: usize, rtt: bool) -> (r: Option<u64>)
    requires
        i < nodes@.len(),
        ordered(nodes@),
        old(st).fits(nodes@.len() as int),
    ensures
        final(st).fits(nodes@.len() as int),
        (final(st)@, r) == latency(nodes@, old(st)@, i as int, rtt),
    decreases i, 5int, 0int,
{
    if rtt {
        match one_latency(nodes, st, i, true) {
            Some(l) => {
                return Some(l);
            },
            None => {},
        }
    }
    one_latency(nodes, st, i, false)
}

/// What a group uses stands before it in the list.
pub open spec fn picks_fit(st: Picks, n: int) -> bool {
    &&& st.current.len() == n
    &&& st.next.len() == n
    &&& forall|i: int| 0 <= i < n && (#[trigger] st.current[i]) is Some ==> st.current[i]->0 < i
}

proof fn lemma_choice_fits(nodes: Seq<OutboundNode>, st: Picks, i: int)
    requires
        0 <= i < nodes.len(),
        ordered(nodes),
        picks_fit(st, nodes.len() as int),
    ensures
        choice(nodes, st, i) matches Some(x) ==> x.1 < i && picks_fit(x.0, nodes.len() as int),
    decreases i, 2int, 0int,
{
    if nodes[i].members() is Some {
        let kids = nodes[i].members()->0;
        assert forall|k: int| 0 <= k < kids.len() implies (#[trigger] kids[k]) < i by {
            assert(nodes[i].members()->0[k] < i);
        }
        lemma_filter_below(nodes, kids, i);
        let can = healthy_of(nodes, kids);
        match nodes[i] {
            OutboundNode::Urltest { test_type, .. } => {
                if can.len() > 0 {
                    let rtt = test_type@ == "rtt"@;
                    let l = latencies(nodes, st, i, can, can.len() as int, rtt);
                    lemma_latencies_fit(nodes, st, i, can, can.len() as int, rtt);
                    lemma_best(l.1);
                    if l.0.current[i] is Some {
                        lemma_latency_fits(nodes, l.0, l.0.current[i]->0 as int, rtt);
                        reveal_with_fuel(latency_below, 2);
                        assert(latency_below(nodes, l.0, i, l.0.current[i]->0, rtt) == latency(
                            nodes,
                            l.0,
                            l.0.current[i]->0 as int,
                            rtt,
                        ));
                    }
                }
            },
            _ => {},
        }
    }
}

proof fn lemma_latencies_fit(nodes: Seq<OutboundNode>, st: Picks, i: int, kids: Seq<usize>, n: int, rtt: bool)
    requires
        0 <= i < nodes.len(),
        ordered(nodes),
        picks_fit(st, nodes.len() as int),
        n <= kids.len(),
        forall|k: int| 0 <= k < kids.len() ==> (#[trigger] kids[k]) < i,
    ensures
        picks_fit(latencies(nodes, st, i, kids, n, rtt).0, nodes.len() as int),
        n >= 0 ==> latencies(nodes, st, i, kids, n, rtt).1.len() == n,
    decreases i, 1int, n,
{
    if n > 0 {
        lemma_latencies_fit(nodes, st, i, kids, n - 1, rtt);
        let l = latencies(nodes, st, i, kids, n - 1, rtt);
        assert(kids[n - 1] < i);
        lemma_latency_fits(nodes, l.0, kids[n - 1] as int, rtt);
        reveal_with_fuel(latency_below, 2);
        assert(latency_below(nodes, l.0, i, kids[n - 1], rtt) == latency(nodes, l.0, kids[n - 1] as int, rtt));
    }
}

proof fn lemma_leaf_fits(nodes: Seq<OutboundNode>, st: Picks, i: int)
    requires
        0 <= i < nodes.len(),
        ordered(nodes),
        picks_fit(st, nodes.len() as int),
    ensures
        picks_fit(leaf(nodes, st, i).0, nodes.len() as int),
        0 <= leaf(nodes, st, i).1 <= i,
        choice(nodes, leaf(nodes, st, i).0, leaf(nodes, st, i).1) is None,
    decreases i, 3int, 0int,
{
    lemma_choice_fits(nodes, st, i);
    match choice(nodes, st, i) {
        None => {},
        Some(x) => {
            lemma_leaf_fits(nodes, x.0, x.1 as int);
        },
    }
}

proof fn lemma_latency_of_fits(nodes: Seq<OutboundNode>, st: Picks, i: int, rtt: bool)
    requires
        0 <= i < nodes.len(),
        ordered(nodes),
        picks_fit(st, nodes.len() as int),
    ensures
        picks_fit(latency_of(nodes, st, i, rtt).0, nodes.len() as int),
    decreases i, 4int, 0int,
{
    if nodes[i].members() is Some {
        lemma_leaf_fits(nodes, st, i);
        let l = leaf(nodes, st, i);
        if l.1 < i {
            lemma_latency_of_fits(nodes, l.0, l.1, rtt);
        }
    }
}

proof fn lemma_latency_fits(nodes: Seq<OutboundNode>, st: Picks, i: int, rtt: bool)
    requires
        0 <= i < nodes.len(),
        ordered(nodes),
        picks_fit(st, nodes.len() as int),
    ensures
        picks_fit(latency(nodes, st, i, rtt).0, nodes.len() as int),
    decreases i, 5int, 0int,
{
    lemma_latency_of_fits(nodes, st, i, true);
    lemma_latency_of_fits(nodes, st, i, false);
    lemma_latency_of_fits(nodes, latency_of(nodes, st, i, true).0, i, false);
}

/// What an outbound comes down to has nobody further to choose: it is no group, or a group without a
/// member to use. Asked again, it comes down to itself, and nothing more is remembered.
pub proof fn law_leaf_is_final(nodes: Seq<OutboundNode>, st: Picks, i: int)
    requires
        0 <= i < nodes.len(),
        ordered(nodes),
        picks_fit(st, nodes.len() as int),
    ensures
        choice(nodes, leaf(nodes, st, i).0, leaf(nodes, st, i).1) is None,
        leaf(nodes, leaf(nodes, st, i).0, leaf(nodes, st, i).1) == leaf(nodes, st, i),
        picks_fit(leaf(nodes, st, i).0, nodes.len() as int),
{
    lemma_leaf_fits(nodes, st, i);
}

/// A fallback or balancing group with a working member uses a working member.
pub proof fn law_working_member_used(nodes: Seq<OutboundNode>, st: Picks, i: int)
    requires
        0 <= i < nodes.len(),
        nodes[i] is Fallback || nodes[i] is LoadBalance,
        healthy(nodes, i),
    ensures
        choice(nodes, st, i) matches Some(x) && healthy(nodes, x.1 as int) && nodes[i].members()->0.contains(x.1),
{
    let kids = nodes[i].members()->0;
    let f = |c: usize| healthy(nodes, c as int);
    let can = healthy_of(nodes, kids);
    let j = choose|j: int| 0 <= j < kids.len() && (#[trigger] kids[j]) < i && healthy(nodes, kids[j] as int);
    kids.lemma_filter_contains(f, j);
    assert(can.len() > 0);
    assert forall|k: int| 0 <= k < can.len() implies healthy(nodes, (#[trigger] can[k]) as int) && kids.contains(can[k]) by {
        kids.lemma_filter_pred(f, k);
        assert(can.contains(can[k]));
        kids.lemma_filter_contains_rev(f, can[k]);
    }
    let t = st.next[i] as int % can.len() as int;
    assert(0 <= t < can.len());
    assert(healthy(nodes, can[t] as int));
    assert(healthy(nodes, can[0] as int));
}

/// A fallback group uses its first working member: every member before it is down.
pub proof fn law_fallback_order(nodes: Seq<OutboundNode>, st: Picks, i: int, k: int)
    requires
        0 <= i < nodes.len(),
        nodes[i] is Fallback,
        0 <= k < nodes[i].members()->0.len(),
        healthy(nodes, nodes[i].members()->0[k] as int),
        forall|j: int| 0 <= j < k ==> !healthy(nodes, #[trigger] nodes[i].members()->0[j] as int),
    ensures
        choice(nodes, st, i) == Some((st, nodes[i].members()->0[k])),
{
    let kids = nodes[i].members()->0;
    let f = |c: usize| healthy(nodes, c as int);
    assert(kids =~= kids.take(k) + kids.skip(k));
    Seq::filter_distributes_over_add(kids.take(k), kids.skip(k), f);
    assert(kids.take(k).all(|x: usize| !f(x))) by {
        assert forall|j: int| 0 <= j < kids.take(k).len() implies !f(#[trigger] kids.take(k)[j]) by {
            assert(kids.take(k)[j] == kids[j]);
        }
    }
    kids.take(k).lemma_all_neg_filter_empty(f);
    assert(kids.skip(k) =~= seq![kids[k]] + kids.skip(k + 1));
    Seq::filter_distributes_over_add(seq![kids[k]], kids.skip(k + 1), f);
    reveal_with_fuel(Seq::filter, 2);
    assert(seq![kids[k]].drop_last() =~= seq![]);
    assert(seq![kids[k]].filter(f) =~= seq![kids[k]]);
    assert(kids.filter(f)[0] == kids[k]);
}

/// The state of a balancing group after `k` more requests.
pub open spec fn counted_times(st: Picks, i: int, k: nat) -> Picks
    decreases k,
{
    if k == 0 {
        st
    } else {
        counted(counted_times(st, i, (k - 1) as nat), i)
    }
}

/// A balancing group uses its working members in turn: request number `k` from now goes to the
/// member that is `k` places further round.
pub proof fn law_round_robin(nodes: Seq<OutboundNode>, st: Picks, i: int, k: nat)
    requires
        0 <= i < nodes.len(),
        nodes[i] is LoadBalance,
        i < st.next.len(),
        st.next[i] + k <= u64::MAX,
        healthy_of(nodes, nodes[i].members()->0).len() > 0,
    ensures
        ({
            let can = healthy_of(nodes, nodes[i].members()->0);
            choice(nodes, counted_times(st, i, k), i) == Some(
                (counted_times(st, i, k + 1), can[(st.next[i] + k) % can.len() as int]),
            )
        }),
    decreases k,
{
    lemma_counted_times(st, i, k);
    assert(counted_times(st, i, k + 1) == counted(counted_times(st, i, k), i));
}

proof fn lemma_counted_times(st: Picks, i: int, k: nat)
    requires
        0 <= i < st.next.len(),
        st.next[i] + k <= u64::MAX,
    ensures
        counted_times(st, i, k).next.len() == st.next.len(),
        counted_times(st, i, k).next[i] == st.next[i] + k,
    decreases k,
{
    if k > 0 {
        lemma_counted_times(st, i, (k - 1) as nat);
    }
}

/// How a test group with a known latency chooses. It stays with the member that it used before exactly
/// while that one is slower than no working member by more than the tolerance; otherwise it takes a
/// member with the smallest latency, the first where there are several, and remembers it.
pub proof fn law_test_group_choice(nodes: Seq<OutboundNode>, st: Picks, i: int, k: int)
    requires
        0 <= i < nodes.len(),
        ordered(nodes),
        picks_fit(st, nodes.len() as int),
        nodes[i] is Urltest,
        ({
            let can = healthy_of(nodes, nodes[i].members()->0);
            let rtt = nodes[i]->test_type@ == "rtt"@;
            0 <= k < can.len() && latencies(nodes, st, i, can, can.len() as int, rtt).1[k] is Some
        }),
    ensures
        ({
            let can = healthy_of(nodes, nodes[i].members()->0);
            let rtt = nodes[i]->test_type@ == "rtt"@;
            let l = latencies(nodes, st, i, can, can.len() as int, rtt);
            let used = l.0.current[i];
            let now = latency(nodes, l.0, used->0 as int, rtt).1;
            let near = used is Some && now is Some && forall|j: int|
                0 <= j < can.len() && (#[trigger] l.1[j]) is Some ==> now->0 <= l.1[j]->0 + nodes[i]->tolerance_ms;
            &&& choice(nodes, st, i) is Some
            &&& near ==> (choice(nodes, st, i)->0).1 == used->0
            &&& !near ==> ({
                let x = choice(nodes, st, i)->0;
                &&& x.0.current[i] == Some(x.1)
                &&& healthy(nodes, x.1 as int)
                &&& exists|j: int|
                    0 <= j < can.len() && x.1 == can[j] && (#[trigger] l.1[j]) is Some && l.1[j]->0 <= l.1[k]->0 && (k < j
                        ==> l.1[j]->0 < l.1[k]->0)
            })
        }),
{
    let kids = nodes[i].members()->0;
    let can = healthy_of(nodes, kids);
    let rtt = nodes[i]->test_type@ == "rtt"@;
    assert forall|j: int| 0 <= j < kids.len() implies (#[trigger] kids[j]) < i by {
        assert(nodes[i].members()->0[j] < i);
    }
    lemma_filter_below(nodes, kids, i);
    let l = latencies(nodes, st, i, can, can.len() as int, rtt);
    lemma_latencies_fit(nodes, st, i, can, can.len() as int, rtt);
    let b = best(l.1);
    law_best_is_smallest(l.1, k);
    let used = l.0.current[i];
    assert(l.1[b]->0 <= l.1[k]->0);
    if used is Some {
        assert(used->0 < i);
        reveal_with_fuel(latency_below, 2);
        let m = latency(nodes, l.0, used->0 as int, rtt);
        assert(latency_below(nodes, l.0, i, used->0, rtt) == m);
        if m.1 is Some {
            assert forall|j: int| 0 <= j < can.len() && (#[trigger] l.1[j]) is Some implies l.1[b]->0 <= l.1[j]->0 by {
                law_best_is_smallest(l.1, j);
            }
        }
        lemma_latency_fits(nodes, l.0, used->0 as int, rtt);
    }
}

/// A test group of which nothing is known yet stays with the member that it used before while that one
/// works, and takes its first working member otherwise; one without a working member has nobody.
pub proof fn law_test_group_unmeasured(nodes: Seq<OutboundNode>, st: Picks, i: int)
    requires
        0 <= i < nodes.len(),
        ordered(nodes),
        picks_fit(st, nodes.len() as int),
        nodes[i] is Urltest,
        ({
            let can = healthy_of(nodes, nodes[i].members()->0);
            let rtt = nodes[i]->test_type@ == "rtt"@;
            forall|j: int|
                0 <= j < can.len() ==> (#[trigger] latencies(nodes, st, i, can, can.len() as int, rtt).1[j]) is None
        }),
    ensures
        ({
            let can = healthy_of(nodes, nodes[i].members()->0);
            let rtt = nodes[i]->test_type@ == "rtt"@;
            let l = latencies(nodes, st, i, can, can.len() as int, rtt);
            let used = l.0.current[i];
            if can.len() == 0 {
                choice(nodes, st, i) is None
            } else if used is Some && healthy(nodes, used->0 as int) {
                choice(nodes, st, i) == Some((l.0, used->0))
            } else {
                choice(nodes, st, i) matches Some(x) && x.1 == can[0] && x.0.current[i] == Some(can[0])
            }
        }),
{
    let kids = nodes[i].members()->0;
    let can = healthy_of(nodes, kids);
    let rtt = nodes[i]->test_type@ == "rtt"@;
    assert forall|j: int| 0 <= j < kids.len() implies (#[trigger] kids[j]) < i by {
        assert(nodes[i].members()->0[j] < i);
    }
    lemma_filter_below(nodes, kids, i);
    let l = latencies(nodes, st, i, can, can.len() as int, rtt);
    lemma_latencies_fit(nodes, st, i, can, can.len() as int, rtt);
    lemma_best(l.1);
    if best(l.1) >= 0 {
        assert(latencies(nodes, st, i, can, can.len() as int, rtt).1[best(l.1)] is None);
    }
}

/// The latency of a server: its round trip time where that is asked for and has been measured, else the
/// median of what the health checks measured. Asking for it changes nothing.
pub proof fn law_server_latency(nodes: Seq<OutboundNode>, st: Picks, c: int, rtt: bool)
    requires
        0 <= c < nodes.len(),
        nodes[c] is Mirage,
    ensures
        latency(nodes, st, c, rtt) == (
            st,
            if rtt && 0 < nodes[c]->rtt_ms < 0xffff_ffff_ffff_ffff {
                Some(nodes[c]->rtt_ms)
            } else {
                median(nodes[c]->pool.stats.latency_samples@)
            },
        ),
{
}

/// A group of servers that are all known: with the latencies as they were measured, the group keeps its
/// server while that one is within the tolerance of every working one, and goes over to the fastest one
/// otherwise.
pub proof fn law_servers_compared(nodes: Seq<OutboundNode>, st: Picks, i: int, fast: usize)
    requires
        0 <= i < nodes.len(),
        ordered(nodes),
        picks_fit(st, nodes.len() as int),
        nodes[i] is Urltest,
        nodes[i]->test_type@ != "rtt"@,
        forall|j: int|
            0 <= j < nodes[i].members()->0.len() ==> nodes[#[trigger] nodes[i].members()->0[j] as int] is Mirage,
        nodes[i].members()->0.contains(fast),
        healthy(nodes, fast as int),
        median(nodes[fast as int]->pool.stats.latency_samples@) is Some,
        st.current[i] matches Some(c) ==> nodes[i].members()->0.contains(c),
    ensures
        ({
            let ms = |c: usize| median(nodes[c as int]->pool.stats.latency_samples@);
            &&& choice(nodes, st, i) is Some
            &&& ms((choice(nodes, st, i)->0).1) is Some
            &&& ms((choice(nodes, st, i)->0).1)->0 <= ms(fast)->0 + nodes[i]->tolerance_ms
            &&& (st.current[i] matches Some(c) && ms(c) is Some && ms(c)->0 > ms(fast)->0 + nodes[i]->tolerance_ms) ==> ({
                let x = choice(nodes, st, i)->0;
                ms(x.1)->0 <= ms(fast)->0 && x.0.current[i] == Some(x.1) && Some(x.1) != st.current[i]
            })
        }),
{
    let kids = nodes[i].members()->0;
    let can = healthy_of(nodes, kids);
    let f = |c: usize| healthy(nodes, c as int);
    assert forall|j: int| 0 <= j < kids.len() implies (#[trigger] kids[j]) < i by {
        assert(nodes[i].members()->0[j] < i);
    }
    lemma_filter_below(nodes, kids, i);
    assert forall|j: int| 0 <= j < can.len() implies nodes[#[trigger] can[j] as int] is Mirage && can[j] < i by {
        assert(can.contains(can[j]));
        kids.lemma_filter_contains_rev(f, can[j]);
        let m = kids.index_of(can[j]);
        assert(nodes[nodes[i].members()->0[m] as int] is Mirage);
    }
    lemma_server_latencies(nodes, st, i, can, can.len() as int);
    let m = kids.index_of(fast);
    kids.lemma_filter_contains(f, m);
    let k = can.index_of(fast);
    assert(can[k] == fast);
    law_test_group_choice(nodes, st, i, k);
    match st.current[i] {
        Some(c) => {
            let p = kids.index_of(c);
            assert(nodes[nodes[i].members()->0[p] as int] is Mirage);
            law_server_latency(nodes, st, c as int, false);
        },
        None => {},
    }
}

proof fn lemma_server_latencies(nodes: Seq<OutboundNode>, st: Picks, i: int, kids: Seq<usize>, n: int)
    requires
        0 <= i < nodes.len(),
        0 <= n <= kids.len(),
        forall|j: int| 0 <= j < kids.len() ==> nodes[#[trigger] kids[j] as int] is Mirage && kids[j] < i,
    ensures
        latencies(nodes, st, i, kids, n, false).0 == st,
        latencies(nodes, st, i, kids, n, false).1.len() == n,
        forall|j: int|
            0 <= j < n ==> (#[trigger] latencies(nodes, st, i, kids, n, false).1[j]) == median(
                nodes[kids[j] as int]->pool.stats.latency_samples@,
            ),
    decreases n,
{
    if n > 0 {
        lemma_server_latencies(nodes, st, i, kids, n - 1);
        assert(kids[n - 1] < i);
        assert(nodes[kids[n - 1] as int] is Mirage);
        law_server_latency(nodes, st, kids[n - 1] as int, false);
        reveal_with_fuel(latencies, 2);
        reveal_with_fuel(latency_below, 2);
        assert(latency_below(nodes, st, i, kids[n - 1], false) == latency(nodes, st, kids[n - 1] as int, false));
        let a = latencies(nodes, st, i, kids, n - 1, false).1;
        let b = latencies(nodes, st, i, kids, n, false).1;
        assert(b == a.push(latency(nodes, st, kids[n - 1] as int, false).1));
        assert forall|j: int| 0 <= j < n implies (#[trigger] b[j]) == median(
            nodes[kids[j] as int]->pool.stats.latency_samples@,
        ) by {
            if j < n - 1 {
                assert(b[j] == a[j]);
            }
        }
    }
}

/// A server works until three attempts in a row have failed, anything else that is no group always, and
/// a group where one of its members does.
pub proof fn law_what_works(nodes: Seq<OutboundNode>, i: int)
    requires
        0 <= i < nodes.len(),
        ordered(nodes),
    ensures
        nodes[i] is Mirage ==> (healthy(nodes, i) <==> nodes[i]->pool.stats.consecutive_failures < 3),
        nodes[i] is Direct || nodes[i] is Block || nodes[i] is Wireguard || nodes[i] is Shadowsocks ==> healthy(nodes, i),
        nodes[i].members() is Some ==> (healthy(nodes, i) <==> exists|j: int|
            0 <= j < nodes[i].members()->0.len() && healthy(nodes, #[trigger] nodes[i].members()->0[j] as int)),
{
    if nodes[i].members() is Some {
        let kids = nodes[i].members()->0;
        assert forall|j: int| 0 <= j < kids.len() implies (#[trigger] kids[j]) < i by {
            assert(nodes[i].members()->0[j] < i);
        }
    }
}

/// What the members of each kind of group are, and that nothing else is a group.
pub proof fn law_members(n: OutboundNode)
    ensures
        match n {
            OutboundNode::Urltest { children, .. } => n.members() == Some(children@),
            OutboundNode::Fallback { children, .. } => n.members() == Some(children@),
            OutboundNode::Selector { children, .. } => n.members() == Some(children@),
            OutboundNode::LoadBalance { children, .. } => n.members() == Some(children@),
            _ => n.members() is None,
        },
{
}

/// A selector uses the selected member whether it works or not, and its first one while none is
/// selected; it remembers nothing by itself.
pub proof fn law_selector_obeys(nodes: Seq<OutboundNode>, st: Picks, i: int, c: usize)
    requires
        0 <= i < st.current.len(),
        nodes[i] is Selector,
    ensures
        st.current[i] == Some(c) ==> choice(nodes, st, i) == Some((st, c)),
        st.current[i] is None && nodes[i]->Selector_children@.len() > 0 ==> choice(nodes, st, i) == Some(
            (st, nodes[i]->Selector_children@[0]),
        ),
        st.current[i] is None && nodes[i]->Selector_children@.len() == 0 ==> choice(nodes, st, i) is None,
{
}

/// A fallback or balancing group none of whose members works tries its first one all the same.
pub proof fn law_first_as_last_resort(nodes: Seq<OutboundNode>, st: Picks, i: int)
    requires
        0 <= i < nodes.len(),
        ordered(nodes),
        nodes[i] is Fallback || nodes[i] is LoadBalance,
        !healthy(nodes, i),
        nodes[i].members()->0.len() > 0,
    ensures
        choice(nodes, st, i) == Some((st, nodes[i].members()->0[0])),
{
    let kids = nodes[i].members()->0;
    let f = |c: usize| healthy(nodes, c as int);
    assert(kids.all(|x: usize| !f(x))) by {
        assert forall|j: int| 0 <= j < kids.len() implies !f(#[trigger] kids[j]) by {
            assert(nodes[i].members()->0[j] < i);
        }
    }
    kids.lemma_all_neg_filter_empty(f);
}

/// An outbound comes down to what its chosen member comes down to, after the choice; one without a
/// choice comes down to itself.
pub proof fn law_leaf_follows_choice(nodes: Seq<OutboundNode>, st: Picks, i: int)
    requires
        0 <= i < nodes.len(),
        ordered(nodes),
        picks_fit(st, nodes.len() as int),
    ensures
        match choice(nodes, st, i) {
            None => leaf(nodes, st, i) == (st, i),
            Some(x) => leaf(nodes, st, i) == leaf(nodes, x.0, x.1 as int),
        },
        nodes[i].members() is None ==> leaf(nodes, st, i) == (st, i),
{
    lemma_choice_fits(nodes, st, i);
}

/// The latency of a group is that of what it comes down to: a server's own, and none for anything else.
pub proof fn law_group_latency(nodes: Seq<OutboundNode>, st: Picks, g: int, rtt: bool)
    requires
        0 <= g < nodes.len(),
        ordered(nodes),
        picks_fit(st, nodes.len() as int),
        nodes[g].members() is Some,
    ensures
        ({
            let l = leaf(nodes, st, g);
            latency_of(nodes, st, g, rtt) == (
                l.0,
                if !(nodes[l.1] is Mirage) {
                    None
                } else if !rtt {
                    median(nodes[l.1]->pool.stats.latency_samples@)
                } else if 0 < nodes[l.1]->rtt_ms < 0xffff_ffff_ffff_ffff {
                    Some(nodes[l.1]->rtt_ms)
                } else {
                    None
                },
            )
        }),
{
    lemma_leaf_fits(nodes, st, g);
    let l = leaf(nodes, st, g);
    reveal_with_fuel(latency_of, 3);
    if l.1 < g && nodes[l.1].members() is Some {
        assert(choice(nodes, l.0, l.1) is None);
        assert(leaf(nodes, l.0, l.1) == (l.0, l.1));
    }
}

/// The working members are all members that work and no others, in the order of the members.
pub proof fn law_working_members(nodes: Seq<OutboundNode>, kids: Seq<usize>, c: usize)
    ensures
        healthy_of(nodes, kids).contains(c) <==> kids.contains(c) && healthy(nodes, c as int),
        healthy_of(nodes, kids.push(c)) == if healthy(nodes, c as int) {
            healthy_of(nodes, kids).push(c)
        } else {
            healthy_of(nodes, kids)
        },
{
    let f = |x: usize| healthy(nodes, x as int);
    if kids.filter(f).contains(c) {
        kids.lemma_filter_contains_rev(f, c);
        let k = kids.filter(f).index_of(c);
        kids.lemma_filter_pred(f, k);
    }
    if kids.contains(c) && healthy(nodes, c as int) {
        kids.lemma_filter_contains(f, kids.index_of(c));
    }
    reveal(Seq::filter);
    assert(kids.push(c).drop_last() =~= kids);
}

} // verus!
