//! Flows of intercepted datagrams: which are being set up, which are ready, the sockets that their
//! replies come from, and the frames that carry them through a tunnel.

use vstd::prelude::*;
use vstd::utf8::encode_utf8;

use crate::frames::{
    first_frame, frame_body, frame_payload, frame_total, framed, frames_in, law_framed_first, name_bytes, payload_of,
    rest_of, take_frames, ATYP_NAME,
};
use crate::handler::Exit;
use crate::ip::{IpAddr, IpView, SocketAddr};
use crate::table::{Key, Table};
use crate::text::opt_text;
use crate::wire::{copy_range, push_bytes, push_u16};

verus! {

/// How long a flow may stay without traffic, in seconds.
pub const IDLE_TIMEOUT_SECS: u64 = 60;

/// The size of a receive buffer.
pub const UDP_BUF: usize = 65536;

/// How many flows there may be.
pub const MAX_FLOWS: usize = 4096;

/// A version 4 address as a number, and a port.
#[derive(Clone, Copy, PartialEq, Eq, Structural, Debug)]
pub struct V4Addr {
    pub ip: u32,
    pub port: u16,
}

/// A flow: who sends, and where to.
#[derive(Clone, Copy, PartialEq, Eq, Structural, Debug)]
pub struct FlowKey {
    pub client: V4Addr,
    pub orig_dst: V4Addr,
}

impl Key for V4Addr {
    type Model = V4Addr;

    open spec fn model(&self) -> V4Addr {
        *self
    }

    fn same(&self, other: &V4Addr) -> (r: bool) {
        *self == *other
    }
}

impl Key for FlowKey {
    type Model = FlowKey;

    open spec fn model(&self) -> FlowKey {
        *self
    }

    fn same(&self, other: &FlowKey) -> (r: bool) {
        *self == *other
    }
}

/// What carries a flow.
#[derive(Clone, Copy, PartialEq, Eq, Structural, Debug)]
pub enum FlowSink {
    Direct,
    Mirage,
}

/// A flow that is being set up, or one that is ready.
#[derive(Clone, Copy, PartialEq, Eq, Structural, Debug)]
pub enum FlowSlot {
    Setting,
    Ready { id: u64, sink: FlowSink },
}

/// What happens to a datagram.
#[derive(Clone, Copy, PartialEq, Eq, Structural, Debug)]
pub enum Arrival {
    /// It goes to the flow of this number.
    Forward { id: u64, sink: FlowSink },
    /// It is dropped, as its flow is still being set up.
    Wait,
    /// It is dropped, as there are too many flows.
    Full,
    /// It starts a flow.
    Setup,
}

/// The flows, how many flows use the socket of each address, the next flow's number, and how many
/// datagrams found no room.
pub struct Flows {
    pub sessions: Table<FlowKey, FlowSlot>,
    pub replies: Table<V4Addr, u64>,
    pub next_id: u64,
    pub cap_drops: u64,
}

/// What happens to a datagram of a flow.
pub open spec fn arrival(s: Map<FlowKey, FlowSlot>, key: FlowKey) -> Arrival {
    if s.dom().contains(key) {
        match s[key] {
            FlowSlot::Ready { id, sink } => Arrival::Forward { id, sink },
            FlowSlot::Setting => Arrival::Wait,
        }
    } else if s.dom().len() >= MAX_FLOWS {
        Arrival::Full
    } else {
        Arrival::Setup
    }
}

/// The flows after one has ended: a flow that never became ready gives up its place, and a flow that
/// did gives it up unless another flow has taken it.
pub open spec fn ended(s: Map<FlowKey, FlowSlot>, key: FlowKey, committed: Option<u64>) -> Map<FlowKey, FlowSlot> {
    if s.dom().contains(key) && match committed {
        None => s[key] is Setting,
        Some(id) => s[key] is Ready && s[key]->id == id,
    } {
        s.remove(key)
    } else {
        s
    }
}

/// The uses of sockets after a flow has ended: the socket that nobody uses any more is closed.
pub open spec fn released(r: Map<V4Addr, u64>, orig: V4Addr) -> Map<V4Addr, u64> {
    if !r.dom().contains(orig) {
        r
    } else if r[orig] <= 1 {
        r.remove(orig)
    } else {
        r.insert(orig, (r[orig] - 1) as u64)
    }
}

impl Flows {
    /// No flow and no socket is listed twice.
    pub open spec fn wf(&self) -> bool {
        self.sessions.wf() && self.replies.wf()
    }

    /// No flows.
    pub fn new() -> (r: Flows)
        ensures
            r.wf(),
            r.sessions@ == Map::<FlowKey, FlowSlot>::empty(),
            r.replies@ == Map::<V4Addr, u64>::empty(),
            r.next_id == 1,
            r.cap_drops == 0,
    {
        Flows { sessions: Table::new(), replies: Table::new(), next_id: 1, cap_drops: 0 }
    }

    /// Decides what happens to a datagram; the first one of a flow takes a place for it.
    pub fn on_datagram(&mut self, key: FlowKey) -> (r: Arrival)
        requires
            old(self).wf(),
        ensures
            final(self).wf(),
            r == arrival(old(self).sessions@, key),
            final(self).sessions@ == (if r is Setup {
                old(self).sessions@.insert(key, FlowSlot::Setting)
            } else {
                old(self).sessions@
            }),
            final(self).replies == old(self).replies,
            final(self).next_id == old(self).next_id,
            final(self).cap_drops == (if r is Full {
                (old(self).cap_drops + 1) % 0x1_0000_0000_0000_0000
            } else {
                old(self).cap_drops as int
            }),
    {
        match self.sessions.get(&key) {
            Some(slot) => {
                match slot {
                    FlowSlot::Ready { id, sink } => Arrival::Forward { id: *id, sink: *sink },
                    FlowSlot::Setting => Arrival::Wait,
                }
            },
            None => {
                if self.sessions.len() >= MAX_FLOWS {
                    self.cap_drops = self.cap_drops.wrapping_add(1);
                    return Arrival::Full;
                }
                self.sessions.insert(key, FlowSlot::Setting);
                Arrival::Setup
            },
        }
    }

    /// The number of the next flow.
    pub fn next_flow_id(&mut self) -> (r: u64)
        requires
            old(self).wf(),
        ensures
            final(self).wf(),
            r == old(self).next_id,
            final(self).next_id == (old(self).next_id + 1) % 0x1_0000_0000_0000_0000,
            final(self).sessions == old(self).sessions,
            final(self).replies == old(self).replies,
            final(self).cap_drops == old(self).cap_drops,
    {
        let id: u64 = self.next_id;
        self.next_id = id.wrapping_add(1);
        id
    }

    /// Takes a use of the socket that answers for an address. `built` says whether one could be made
    /// where there is none yet. Fails where there is none.
    pub fn acquire_reply(&mut self, orig: V4Addr, built: bool) -> (r: bool)
        requires
            old(self).wf(),
            old(self).replies@.dom().contains(orig) ==> old(self).replies@[orig] < u64::MAX,
        ensures
            final(self).wf(),
            r == (old(self).replies@.dom().contains(orig) || built),
            final(self).replies@ == (if old(self).replies@.dom().contains(orig) {
                old(self).replies@.insert(orig, (old(self).replies@[orig] + 1) as u64)
            } else if built {
                old(self).replies@.insert(orig, 1)
            } else {
                old(self).replies@
            }),
            final(self).sessions == old(self).sessions,
            final(self).next_id == old(self).next_id,
            final(self).cap_drops == old(self).cap_drops,
    {
        let found: Option<u64> = match self.replies.get(&orig) {
            Some(n) => Some(*n),
            None => None,
        };
        match found {
            Some(n) => {
                self.replies.insert(orig, n + 1);
                true
            },
            None => {
                if built {
                    self.replies.insert(orig, 1);
                }
                built
            },
        }
    }

    /// Makes a flow ready.
    pub fn commit(&mut self, key: FlowKey, id: u64, sink: FlowSink)
        requires
            old(self).wf(),
        ensures
            final(self).wf(),
            final(self).sessions@ == old(self).sessions@.insert(key, (FlowSlot::Ready { id, sink })),
            final(self).replies == old(self).replies,
            final(self).next_id == old(self).next_id,
            final(self).cap_drops == old(self).cap_drops,
    {
        self.sessions.insert(key, FlowSlot::Ready { id, sink });
    }

    /// Ends a flow. `committed` is its number if it became ready, and it then gives back its use of
    /// the socket.
    pub fn finish(&mut self, key: FlowKey, committed: Option<u64>)
        requires
            old(self).wf(),
        ensures
            final(self).wf(),
            final(self).sessions@ == ended(old(self).sessions@, key, committed),
            final(self).replies@ == (if committed is Some {
                released(old(self).replies@, key.orig_dst)
            } else {
                old(self).replies@
            }),
            final(self).next_id == old(self).next_id,
            final(self).cap_drops == old(self).cap_drops,
    {
        let mine: bool = match self.sessions.get(&key) {
            Some(slot) => {
                match (slot, committed) {
                    (FlowSlot::Setting, None) => true,
                    (FlowSlot::Ready { id, .. }, Some(c)) => *id == c,
                    _ => false,
                }
            },
            None => false,
        };
        if mine {
            let _ = self.sessions.remove(&key);
        }
        if committed.is_some() {
            let found: Option<u64> = match self.replies.get(&key.orig_dst) {
                Some(n) => Some(*n),
                None => None,
            };
            match found {
                Some(n) => {
                    if n <= 1 {
                        let _ = self.replies.remove(&key.orig_dst);
                    } else {
                        self.replies.insert(key.orig_dst, n - 1);
                    }
                },
                None => {},
            }
        }
    }
}

/// A flow whose setup failed leaves the flows as they were.
pub proof fn law_failed_setup_undone(s: Map<FlowKey, FlowSlot>, key: FlowKey)
    requires
        arrival(s, key) is Setup,
    ensures
        ended(s.insert(key, FlowSlot::Setting), key, None) == s,
{
    assert(s.insert(key, FlowSlot::Setting).remove(key) =~= s);
}

/// A flow that has been ready leaves no trace behind: its place and its use of the socket are free
/// again.
pub proof fn law_finished_flow_undone(
    s: Map<FlowKey, FlowSlot>,
    r: Map<V4Addr, u64>,
    key: FlowKey,
    id: u64,
    sink: FlowSink,
)
    requires
        !s.dom().contains(key),
        r.dom().contains(key.orig_dst) ==> 0 < r[key.orig_dst] < u64::MAX,
    ensures
        ended(s.insert(key, FlowSlot::Ready { id, sink }), key, Some(id)) == s,
        released(
            r.insert(
                key.orig_dst,
                (if r.dom().contains(key.orig_dst) {
                    r[key.orig_dst] + 1
                } else {
                    1
                }) as u64,
            ),
            key.orig_dst,
        ) == r,
{
    assert(s.insert(key, FlowSlot::Ready { id, sink }).remove(key) =~= s);
    let o = key.orig_dst;
    if r.dom().contains(o) {
        assert(r.insert(o, (r[o] + 1) as u64).insert(o, r[o]) =~= r);
    } else {
        assert(r.insert(o, 1u64).remove(o) =~= r);
    }
}

/// A flow that ends late does not take the place of the one that came after it.
pub proof fn law_later_flow_kept(s: Map<FlowKey, FlowSlot>, key: FlowKey, old_id: u64)
    requires
        s.dom().contains(key),
        s[key] is Setting || s[key]->id != old_id,
    ensures
        ended(s, key, Some(old_id)) == s,
{
}

/// There are never more flows than are allowed.
pub proof fn law_flows_bounded(s: Map<FlowKey, FlowSlot>, key: FlowKey)
    requires
        s.dom().finite(),
        s.dom().len() <= MAX_FLOWS,
    ensures
        arrival(s, key) is Setup ==> s.insert(key, FlowSlot::Setting).dom().len() <= MAX_FLOWS,
{
}

/// The first bytes of a name, as many as its length field can count.
pub open spec fn short_name(name: Seq<u8>) -> Seq<u8> {
    if name.len() <= 255 {
        name
    } else {
        name.take(255)
    }
}

/// Frames a datagram for a name.
pub fn frame_udp_domain(domain: &str, port: u16, payload: &[u8]) -> (r: Vec<u8>)
    ensures
        r@ == framed(name_bytes(short_name(encode_utf8(domain@)), port) + payload@),
{
    let b: &[u8] = domain.as_bytes();
    let n: usize = if b.len() < 255 {
        b.len()
    } else {
        255
    };
    let name: Vec<u8> = copy_range(b, 0, n);
    assert(name@ =~= short_name(b@));
    let mut body: Vec<u8> = Vec::new();
    body.push(ATYP_NAME);
    body.push(n as u8);
    push_bytes(&mut body, name.as_slice());
    push_u16(&mut body, port);
    push_bytes(&mut body, payload);
    assert(body@ =~= name_bytes(name@, port) + payload@);
    frame_body(body.as_slice())
}

/// The payload of the first frame, and how many bytes the frame takes; `None` while it is
/// incomplete. A malformed frame has an empty payload.
pub fn parse_udp_frame_payload(buf: &[u8]) -> (r: Option<(Vec<u8>, usize)>)
    ensures
        match first_frame(buf@) {
            None => r is None,
            Some(n) => r matches Some(x) && x.1 == n && x.0@ == payload_of(buf@.subrange(2, n)),
        },
{
    match frame_total(buf) {
        None => None,
        Some(n) => {
            let body: Vec<u8> = copy_range(buf, 2, n);
            Some((frame_payload(body.as_slice()), n))
        },
    }
}

/// A framed datagram is read back: its payload, and nothing beyond the frame.
pub proof fn law_udp_frame_roundtrip(name: Seq<u8>, port: u16, payload: Seq<u8>, rest: Seq<u8>)
    requires
        4 + name.len() + payload.len() <= 65535,
        name.len() <= 255,
    ensures
        ({
            let f = framed(name_bytes(name, port) + payload);
            &&& first_frame(f + rest) == Some(f.len() as int)
            &&& payload_of((f + rest).subrange(2, f.len() as int)) == payload
        }),
{
    let body = name_bytes(name, port) + payload;
    law_framed_first(body, rest);
    let f = framed(body);
    assert((f + rest).subrange(2, f.len() as int) =~= body);
    assert(body[0] == ATYP_NAME && body[1] == name.len());
    assert(body.skip(4 + name.len() as int) =~= payload);
}

/// How a flow is carried.
pub enum FlowPlan {
    /// Not at all.
    Dropped,
    /// Directly, once the name is resolved.
    Resolve(String, u16),
    /// Through a tunnel of the server at this place, for this name.
    Tunnel(usize, String),
}

/// How a flow is carried, as a value.
pub enum FlowView {
    Dropped,
    Resolve(Seq<char>, u16),
    Tunnel(usize, Seq<char>),
}

/// A plan as a value.
pub open spec fn flow_view(p: FlowPlan) -> FlowView {
    match p {
        FlowPlan::Dropped => FlowView::Dropped,
        FlowPlan::Resolve(h, p) => FlowView::Resolve(h@, p),
        FlowPlan::Tunnel(i, h) => FlowView::Tunnel(i, h@),
    }
}

/// How a flow is carried.
pub open spec fn flow_of(exit: Exit, domain: Option<Seq<char>>, port: u16) -> FlowView {
    match (exit, domain) {
        (Exit::Direct, Some(d)) => FlowView::Resolve(d, port),
        (Exit::Tunnel(i), Some(d)) => if encode_utf8(d).len() <= 255 {
            FlowView::Tunnel(i, d)
        } else {
            FlowView::Dropped
        },
        _ => FlowView::Dropped,
    }
}

/// What the rules are applied to: the name that the address stands for, or the address.
pub fn flow_subject(domain: Option<String>, orig: [u8; 4]) -> (r: (Option<String>, Option<IpAddr>))
    ensures
        opt_text(r.0) == opt_text(domain),
        match domain {
            Some(_) => r.1 is None,
            None => r.1 matches Some(a) && a@ == IpView::V4(orig@),
        },
{
    match domain {
        Some(d) => (Some(d), None),
        None => (None, Some(IpAddr::V4(orig))),
    }
}

/// Decides how a flow is carried. Without a name there is nowhere to send it, and a name that is too
/// long fits no frame.
pub fn plan_flow(exit: Exit, domain: Option<String>, port: u16) -> (r: FlowPlan)
    ensures
        match (exit, domain) {
            (Exit::Direct, Some(d)) => r matches FlowPlan::Resolve(h, p) && h@ == d@ && p == port,
            (Exit::Tunnel(i), Some(d)) => if encode_utf8(d@).len() <= 255 {
                r matches FlowPlan::Tunnel(k, h) && k == i && h@ == d@
            } else {
                r is Dropped
            },
            _ => r is Dropped,
        },
        flow_view(r) == flow_of(exit, opt_text(domain), port),
{
    match (exit, domain) {
        (Exit::Direct, Some(d)) => FlowPlan::Resolve(d, port),
        (Exit::Tunnel(i), Some(d)) => {
            if d.as_str().as_bytes().len() <= 255 {
                FlowPlan::Tunnel(i, d)
            } else {
                FlowPlan::Dropped
            }
        },
        _ => FlowPlan::Dropped,
    }
}

/// Where a direct flow goes; version 6 addresses are not reached.
pub fn direct_target(a: SocketAddr) -> (r: Option<SocketAddr>)
    ensures
        r == (if a is V6 {
            None
        } else {
            Some(a)
        }),
{
    match a {
        SocketAddr::V4(o, p) => Some(SocketAddr::V4(o, p)),
        SocketAddr::V6(_, _, _) => None,
    }
}

/// The frame that carries a datagram up a tunnel; a datagram that fits no frame is dropped.
pub open spec fn uplink(name: Seq<u8>, port: u16, pkt: Seq<u8>) -> Option<Seq<u8>> {
    if 4 + name.len() + pkt.len() > 65535 {
        None
    } else {
        Some(framed(name_bytes(short_name(name), port) + pkt))
    }
}

/// The frame that carries a datagram up a tunnel.
pub fn uplink_frame(domain: &str, port: u16, pkt: &[u8]) -> (r: Option<Vec<u8>>)
    requires
        encode_utf8(domain@).len() <= 255,
    ensures
        match r {
            Some(f) => uplink(encode_utf8(domain@), port, pkt@) == Some(f@),
            None => uplink(encode_utf8(domain@), port, pkt@) is None,
        },
{
    let n: usize = domain.as_bytes().len();
    if pkt.len() > 65535 - 4 - n {
        return None;
    }
    Some(frame_udp_domain(domain, port, pkt))
}

/// What comes down a tunnel and is not yet a whole frame.
pub struct Downlink {
    pub acc: Vec<u8>,
}

/// The non-empty payloads of frames, in order.
pub open spec fn payloads(frames: Seq<Seq<u8>>) -> Seq<Seq<u8>>
    decreases frames.len(),
{
    if frames.len() == 0 {
        seq![]
    } else {
        let p = payload_of(frames.last());
        if p.len() == 0 {
            payloads(frames.drop_last())
        } else {
            payloads(frames.drop_last()).push(p)
        }
    }
}

/// Byte vectors as sequences.
pub open spec fn byte_views(v: Seq<Vec<u8>>) -> Seq<Seq<u8>> {
    Seq::new(v.len(), |i: int| v[i]@)
}

impl Downlink {
    /// Nothing received yet.
    pub fn new() -> (r: Downlink)
        ensures
            r.acc@.len() == 0,
    {
        Downlink { acc: Vec::new() }
    }

    /// Takes in what came down the tunnel: the payloads for the client, and whether to go on. What
    /// remains without becoming a frame may not grow too large.
    pub fn on_chunk(&mut self, chunk: &[u8]) -> (r: (Vec<Vec<u8>>, bool))
        ensures
            byte_views(r.0@) == payloads(frames_in(old(self).acc@ + chunk@)),
            final(self).acc@ == rest_of(old(self).acc@ + chunk@),
            r.1 == (final(self).acc@.len() <= 2 * UDP_BUF),
    {
        push_bytes(&mut self.acc, chunk);
        let ghost all = self.acc@;
        let frames: Vec<Vec<u8>> = take_frames(&mut self.acc);
        let ghost fs = byte_views(frames@);
        assert(fs =~= frames_in(all));
        let mut out: Vec<Vec<u8>> = Vec::new();
        let mut i: usize = 0;
        assert(fs.take(0) =~= seq![]);
        assert(byte_views(out@) =~= seq![]);
        while i < frames.len()
            invariant
                i <= frames@.len(),
                fs == byte_views(frames@),
                byte_views(out@) == payloads(fs.take(i as int)),
            decreases frames@.len() - i,
        {
            let ghost before = out@;
            let p: Vec<u8> = frame_payload(frames[i].as_slice());
            proof {
                assert(fs.take(i + 1).drop_last() =~= fs.take(i as int));
                assert(fs.take(i + 1).last() == frames@[i as int]@);
            }
            if p.len() > 0 {
                let ghost pv = p@;
                out.push(p);
                assert(byte_views(out@) =~= byte_views(before).push(pv));
            }
            i = i + 1;
        }
        assert(fs.take(i as int) =~= fs);
        let go_on: bool = self.acc.len() <= 2 * UDP_BUF;
        (out, go_on)
    }
}

/// A datagram goes to its flow once that is ready and waits for it until then; a new flow is set up where
/// there are fewer than four thousand and ninety-six.
pub proof fn law_arrivals(s: Map<FlowKey, FlowSlot>, key: FlowKey)
    ensures
        s.dom().contains(key) && s[key] is Ready ==> arrival(s, key) == (Arrival::Forward { id: s[key]->id, sink: s[key]->sink }),
        s.dom().contains(key) && s[key] is Setting ==> arrival(s, key) is Wait,
        !s.dom().contains(key) && s.dom().len() < 4096 ==> arrival(s, key) is Setup,
        !s.dom().contains(key) && s.dom().len() >= 4096 ==> arrival(s, key) is Full,
{
}

/// The end of a flow touches no other flow, and its socket no other socket. A socket stays as long as
/// another flow uses it.
pub proof fn law_others_not_ended(
    s: Map<FlowKey, FlowSlot>,
    r: Map<V4Addr, u64>,
    key: FlowKey,
    other: FlowKey,
    committed: Option<u64>,
    socket: V4Addr,
)
    requires
        other != key,
        socket != key.orig_dst,
    ensures
        ended(s, key, committed).dom().contains(other) <==> s.dom().contains(other),
        s.dom().contains(other) ==> ended(s, key, committed)[other] == s[other],
        released(r, key.orig_dst).dom().contains(socket) <==> r.dom().contains(socket),
        r.dom().contains(socket) ==> released(r, key.orig_dst)[socket] == r[socket],
        r.dom().contains(key.orig_dst) && r[key.orig_dst] > 1 ==> released(r, key.orig_dst).dom().contains(key.orig_dst)
            && released(r, key.orig_dst)[key.orig_dst] == r[key.orig_dst] - 1,
        r.dom().contains(key.orig_dst) && r[key.orig_dst] <= 1 ==> !released(r, key.orig_dst).dom().contains(key.orig_dst),
        s.dom().contains(key) && s[key] is Ready && committed is None ==> ended(s, key, committed) == s,
{
}

/// A datagram that fits a frame goes up as a frame for its name and port that gives its payload back; one
/// that does not is dropped.
pub proof fn law_uplink_read_back(name: Seq<u8>, port: u16, pkt: Seq<u8>, rest: Seq<u8>)
    requires
        name.len() <= 255,
    ensures
        4 + name.len() + pkt.len() <= 65535 ==> ({
            let f = uplink(name, port, pkt);
            &&& f is Some
            &&& frames_in(f->0 + rest) == seq![name_bytes(name, port) + pkt] + frames_in(rest)
            &&& crate::frames::datagram_of(name_bytes(name, port) + pkt) == Some(
                crate::frames::Datagram { host: crate::text::lossy_text(name), port, payload: pkt },
            )
        }),
        4 + name.len() + pkt.len() > 65535 ==> uplink(name, port, pkt) is None,
{
    if 4 + name.len() + pkt.len() <= 65535 {
        crate::frames::law_frames_in_order(name_bytes(name, port) + pkt, rest);
        crate::frames::law_name_body(name, port, pkt);
    }
}

/// A name is cut off at two hundred and fifty-five bytes, and kept where it is no longer.
pub proof fn law_names_cut(name: Seq<u8>)
    ensures
        name.len() <= 255 ==> short_name(name) == name,
        name.len() > 255 ==> short_name(name).len() == 255 && short_name(name) + name.skip(255) == name,
{
    if name.len() > 255 {
        assert(short_name(name) + name.skip(255) =~= name);
    }
}

/// The payloads of frames are those of each, in order; a frame without a payload leaves no gap and stops
/// nothing.
pub proof fn law_payloads_in_order(a: Seq<Seq<u8>>, f: Seq<u8>, b: Seq<Seq<u8>>)
    ensures
        payload_of(f).len() > 0 ==> payloads(a + seq![f] + b) == payloads(a) + seq![payload_of(f)] + payloads(b),
        payload_of(f).len() == 0 ==> payloads(a + seq![f] + b) == payloads(a) + payloads(b),
    decreases b.len(),
{
    let s = a + seq![f] + b;
    let p = payload_of(f);
    if b.len() == 0 {
        assert(s.drop_last() =~= a);
        assert(s.last() == f);
        assert(payloads(a) + payloads(b) =~= payloads(a));
        assert(payloads(a).push(p) =~= payloads(a) + seq![p] + payloads(b));
    } else {
        law_payloads_in_order(a, f, b.drop_last());
        assert(s.drop_last() =~= a + seq![f] + b.drop_last());
        assert(s.last() == b.last());
        let x = payloads(b.drop_last());
        let q = payload_of(b.last());
        assert((payloads(a) + seq![p] + x).push(q) =~= payloads(a) + seq![p] + x.push(q));
        assert((payloads(a) + x).push(q) =~= payloads(a) + x.push(q));
    }
}

/// A flow is carried for its name, where it has one: directly it is resolved, with its port, and through a
/// server it takes the tunnel of the place, unless the name has more than two hundred and fifty-five bytes.
/// Without a name, or where it is refused, it is not carried.
pub proof fn law_flows_carried(exit: Exit, d: Seq<char>, port: u16, i: usize)
    ensures
        flow_of(exit, None, port) is Dropped,
        flow_of(Exit::Refused, Some(d), port) is Dropped,
        flow_of(Exit::Direct, Some(d), port) == FlowView::Resolve(d, port),
        flow_of(Exit::Tunnel(i), Some(d), port) == FlowView::Tunnel(i, d) <==> encode_utf8(d).len() <= 255,
        flow_of(Exit::Tunnel(i), Some(d), port) is Dropped <==> encode_utf8(d).len() > 255,
{
}

} // verus!
