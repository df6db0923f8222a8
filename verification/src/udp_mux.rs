//! Many datagram flows over one tunnel: frames that carry a session number, the table of sessions of
//! a tunnel, and the choice of a tunnel for a flow.
//!
//! A frame body is the session number (four bytes) and a datagram body.

use vstd::prelude::*;
use vstd::slice::slice_subrange;
use vstd::utf8::encode_utf8;

use crate::frames::{
    addr_bytes, datagram_of, decode_body, first_frame, frame_body, frame_payload, frame_total, framed, frames_in,
    law_addr_body, law_framed_first, law_name_body, name_bytes, payload_of, push_addr, rest_of, take_frames, Datagram,
    ATYP_NAME, ATYP_V4,
};
use crate::ip::{ip_format, SocketAddr, SocketView};
use crate::table::Table;
use crate::text::lossy_text;
use crate::wire::{be16, be32, lemma_be32_at, push_bytes, push_u16, push_u32, read_u32, u32_at};

verus! {

/// The single byte that opens a tunnel for multiplexed datagrams.
pub const MUX_SENTINEL: u8 = 1;

/// The size at which queued frames are no longer merged into one write.
pub const MUX_UPLINK_COALESCE_CAP: usize = 16384;

/// Whether flows are multiplexed, and over how many tunnels.
pub struct MuxSettings {
    pub enabled: bool,
    pub tunnels: usize,
}

impl MuxSettings {
    /// Multiplexing is off until it is switched on; four tunnels where nothing else is said.
    pub fn new() -> (r: MuxSettings)
        ensures
            !r.enabled,
            r.tunnels == 4,
    {
        MuxSettings { enabled: false, tunnels: 4 }
    }
}

/// Switches multiplexing on or off and sets the number of tunnels, which is at least one.
pub fn set_udp_mux(s: &mut MuxSettings, enabled: bool, tunnels: usize)
    ensures
        final(s).enabled == enabled,
        final(s).tunnels == if tunnels == 0 {
            1
        } else {
            tunnels
        },
{
    s.enabled = enabled;
    s.tunnels = if tunnels == 0 {
        1
    } else {
        tunnels
    };
}

/// Whether multiplexing is on.
pub fn udp_mux_enabled(s: &MuxSettings) -> (r: bool)
    ensures
        r == s.enabled,
{
    s.enabled
}

/// The body of a frame of session `sid`.
pub open spec fn mux_body(sid: u32, datagram: Seq<u8>) -> Seq<u8> {
    be32(sid) + datagram
}

/// The frame of a session and an encoded address; `None` where its body would not fit the length
/// prefix.
pub open spec fn mux_frame(sid: u32, addr: Seq<u8>, payload: Seq<u8>) -> Option<Seq<u8>> {
    let body = mux_body(sid, addr + payload);
    if body.len() > 65535 {
        None
    } else {
        Some(framed(body))
    }
}

/// An optional byte vector as an optional sequence.
pub open spec fn opt_bytes(r: Option<Vec<u8>>) -> Option<Seq<u8>> {
    match r {
        Some(v) => Some(v@),
        None => None,
    }
}

/// Frames a datagram for session `sid`: `atyp_and_addr` is the address without its port.
pub fn wrap_frame(sid: u32, atyp_and_addr: &[u8], port: u16, payload: &[u8]) -> (r: Option<Vec<u8>>)
    ensures
        opt_bytes(r) == mux_frame(sid, atyp_and_addr@ + be16(port), payload@),
{
    let ghost body = mux_body(sid, (atyp_and_addr@ + be16(port)) + payload@);
    if atyp_and_addr.len() > 65535 || payload.len() > 65535 || 4 + atyp_and_addr.len() + 2 + payload.len() > 65535 {
        return None;
    }
    let n: u16 = (4 + atyp_and_addr.len() + 2 + payload.len()) as u16;
    let mut f: Vec<u8> = Vec::new();
    push_u16(&mut f, n);
    push_u32(&mut f, sid);
    push_bytes(&mut f, atyp_and_addr);
    push_u16(&mut f, port);
    push_bytes(&mut f, payload);
    assert(f@ =~= framed(body));
    Some(f)
}

/// Frames a datagram for a named host. `None` where the name has more than 255 bytes, which is never
/// cut short, or where the frame would be too long.
pub fn frame_mux_domain(sid: u32, domain: &str, port: u16, payload: &[u8]) -> (r: Option<Vec<u8>>)
    ensures
        opt_bytes(r) == if encode_utf8(domain@).len() > 255 {
            None
        } else {
            mux_frame(sid, name_bytes(encode_utf8(domain@), port), payload@)
        },
{
    let name: &[u8] = domain.as_bytes();
    if name.len() > 255 {
        return None;
    }
    let mut a: Vec<u8> = Vec::new();
    a.push(ATYP_NAME);
    a.push(name.len() as u8);
    push_bytes(&mut a, name);
    assert(a@ + be16(port) =~= name_bytes(name@, port));
    wrap_frame(sid, a.as_slice(), port, payload)
}

/// Frames a datagram for a version 4 address. `None` where the frame would be too long.
pub fn frame_mux_ipv4(sid: u32, ip: &[u8; 4], port: u16, payload: &[u8]) -> (r: Option<Vec<u8>>)
    ensures
        opt_bytes(r) == mux_frame(sid, addr_bytes(SocketView::V4(ip@, port)), payload@),
{
    let mut a: Vec<u8> = Vec::new();
    a.push(ATYP_V4);
    push_bytes(&mut a, ip.as_slice());
    assert(a@ + be16(port) =~= addr_bytes(SocketView::V4(ip@, port)));
    wrap_frame(sid, a.as_slice(), port, payload)
}

/// Frames a datagram that came from a socket address. `None` where the frame would be too long.
pub fn frame_mux_addr(sid: u32, addr: SocketAddr, payload: &[u8]) -> (r: Option<Vec<u8>>)
    ensures
        opt_bytes(r) == mux_frame(sid, addr_bytes(addr@), payload@),
{
    let mut body: Vec<u8> = Vec::new();
    push_u32(&mut body, sid);
    push_addr(&mut body, &addr);
    push_bytes(&mut body, payload);
    assert(body@ =~= mux_body(sid, addr_bytes(addr@) + payload@));
    if body.len() > 65535 {
        return None;
    }
    Some(frame_body(body.as_slice()))
}

/// The session of a frame body; 0 where the body is too short to hold one.
pub open spec fn sid_of(body: Seq<u8>) -> u32 {
    if body.len() < 4 {
        0
    } else {
        u32_at(body, 0) as u32
    }
}

/// The payload of a frame body; nothing where the body is malformed.
pub open spec fn mux_payload(body: Seq<u8>) -> Seq<u8> {
    if body.len() < 4 {
        seq![]
    } else {
        payload_of(body.skip(4))
    }
}

fn read_mux_body(body: &[u8]) -> (r: (u32, Vec<u8>))
    ensures
        r.0 == sid_of(body@),
        r.1@ == mux_payload(body@),
{
    if body.len() < 4 {
        let none: Vec<u8> = Vec::new();
        assert(none@ =~= seq![]);
        return (0, none);
    }
    let inner: &[u8] = slice_subrange(body, 4, body.len());
    assert(inner@ =~= body@.skip(4));
    (read_u32(body, 0), frame_payload(inner))
}

/// Reads one frame off the front of a buffer: session, payload, and the number of bytes that the
/// frame takes up. `None` while the frame is incomplete. A malformed frame is taken up whole, with
/// no payload.
pub fn parse_mux_frame(buf: &[u8]) -> (r: Option<(u32, Vec<u8>, usize)>)
    ensures
        match r {
            Some(f) => first_frame(buf@) == Some(f.2 as int) && f.0 == sid_of(buf@.subrange(2, f.2 as int)) && f.1@
                == mux_payload(buf@.subrange(2, f.2 as int)) && f.2 <= buf@.len(),
            None => first_frame(buf@) is None,
        },
{
    match frame_total(buf) {
        None => None,
        Some(total) => {
            let (sid, payload): (u32, Vec<u8>) = read_mux_body(slice_subrange(buf, 2, total));
            Some((sid, payload, total))
        },
    }
}

/// A datagram that a session asks to be sent.
pub struct UplinkFrame {
    pub sid: u32,
    pub target: String,
    pub port: u16,
    pub payload: Vec<u8>,
}

impl UplinkFrame {
    /// Target, port and payload.
    pub open spec fn datagram(&self) -> Datagram {
        Datagram { host: self.target@, port: self.port, payload: self.payload@ }
    }
}

/// What a frame body asks to be sent; `None` where it is malformed.
pub open spec fn mux_datagram(body: Seq<u8>) -> Option<Datagram> {
    if body.len() < 4 {
        None
    } else {
        datagram_of(body.skip(4))
    }
}

/// Reads one frame off the front of a buffer: the number of bytes that it takes up, and what it asks
/// to be sent. `None` while the frame is incomplete; a malformed frame is taken up whole and asks
/// for nothing.
pub fn parse_mux_uplink(buf: &[u8]) -> (r: Option<(usize, Option<UplinkFrame>)>)
    ensures
        match r {
            Some((total, f)) => first_frame(buf@) == Some(total as int) && total <= buf@.len() && match f {
                Some(u) => mux_datagram(buf@.subrange(2, total as int)) == Some(u.datagram()) && u.sid == sid_of(
                    buf@.subrange(2, total as int),
                ),
                None => mux_datagram(buf@.subrange(2, total as int)) is None,
            },
            None => first_frame(buf@) is None,
        },
{
    match frame_total(buf) {
        None => None,
        Some(total) => {
            Some((total, read_uplink_body(slice_subrange(buf, 2, total))))
        },
    }
}

/// A datagram that a session asks to be sent, as a value: the session and the datagram.
pub open spec fn mux_request(body: Seq<u8>) -> Option<(u32, Datagram)> {
    match mux_datagram(body) {
        Some(d) => Some((sid_of(body), d)),
        None => None,
    }
}

/// The datagrams that whole frames ask for, in order, each with its session; malformed frames ask for
/// none.
pub open spec fn mux_requests(frames: Seq<Seq<u8>>) -> Seq<(u32, Datagram)>
    decreases frames.len(),
{
    if frames.len() == 0 {
        seq![]
    } else {
        match mux_request(frames.last()) {
            Some(d) => mux_requests(frames.drop_last()).push(d),
            None => mux_requests(frames.drop_last()),
        }
    }
}

/// Requests as values.
pub open spec fn request_views(v: Seq<UplinkFrame>) -> Seq<(u32, Datagram)> {
    Seq::new(v.len(), |i: int| (v[i].sid, v[i].datagram()))
}

fn read_uplink_body(body: &[u8]) -> (r: Option<UplinkFrame>)
    ensures
        match r {
            Some(u) => mux_request(body@) == Some((u.sid, u.datagram())),
            None => mux_request(body@) is None,
        },
{
    if body.len() < 4 {
        return None;
    }
    let inner: &[u8] = slice_subrange(body, 4, body.len());
    assert(inner@ =~= body@.skip(4));
    match decode_body(inner) {
        Some(d) => Some(UplinkFrame { sid: read_u32(body, 0), target: d.host, port: d.port, payload: d.payload }),
        None => None,
    }
}

/// Adds what came from a client over a shared tunnel to `acc`, and takes out the datagrams that it asks
/// for, each with its session.
pub fn take_mux_datagrams(acc: &mut Vec<u8>, chunk: &[u8]) -> (r: Vec<UplinkFrame>)
    ensures
        request_views(r@) == mux_requests(frames_in(old(acc)@ + chunk@)),
        final(acc)@ == rest_of(old(acc)@ + chunk@),
{
    push_bytes(acc, chunk);
    let ghost fs = frames_in(acc@);
    let frames: Vec<Vec<u8>> = take_frames(acc);
    let mut out: Vec<UplinkFrame> = Vec::new();
    let mut i: usize = 0;
    assert(fs.take(0) =~= seq![]);
    assert(request_views(out@) =~= seq![]);
    while i < frames.len()
        invariant
            i <= frames@.len(),
            frames@.len() == fs.len(),
            forall|k: int| 0 <= k < frames@.len() ==> (#[trigger] frames@[k])@ == fs[k],
            request_views(out@) == mux_requests(fs.take(i as int)),
        decreases frames@.len() - i,
    {
        proof {
            assert(fs.take(i + 1).drop_last() =~= fs.take(i as int));
            assert(fs.take(i + 1).last() == frames@[i as int]@);
        }
        let ghost before = out@;
        match read_uplink_body(frames[i].as_slice()) {
            Some(u) => {
                let ghost uv = (u.sid, u.datagram());
                out.push(u);
                assert(request_views(out@) =~= request_views(before).push(uv));
            },
            None => {},
        }
        i = i + 1;
    }
    assert(fs.take(i as int) =~= fs);
    out
}

proof fn lemma_mux_body(sid: u32, datagram: Seq<u8>)
    ensures
        sid_of(mux_body(sid, datagram)) == sid,
        mux_body(sid, datagram).skip(4) == datagram,
        mux_body(sid, datagram).len() == 4 + datagram.len(),
{
    let b = mux_body(sid, datagram);
    assert(b.subrange(0, 4) =~= be32(sid));
    lemma_be32_at(sid, b, 0);
    assert(b.skip(4) =~= datagram);
}

/// A frame for an address, whatever follows it, is read back whole: its session, the text of its
/// address, its port and its payload.
pub proof fn law_mux_addr_roundtrip(sid: u32, a: SocketView, payload: Seq<u8>, rest: Seq<u8>)
    requires
        match a {
            SocketView::V4(o, _) => o.len() == 4,
            SocketView::V6(o, _, _) => o.len() == 16,
        },
        mux_frame(sid, addr_bytes(a), payload) is Some,
    ensures
        ({
            let f = mux_frame(sid, addr_bytes(a), payload)->0;
            let body = (f + rest).subrange(2, f.len() as int);
            &&& first_frame(f + rest) == Some(f.len() as int)
            &&& sid_of(body) == sid
            &&& mux_payload(body) == payload
            &&& mux_datagram(body) == Some(Datagram { host: ip_format(a.ip()), port: a.port(), payload })
        }),
{
    let body = mux_body(sid, addr_bytes(a) + payload);
    lemma_mux_body(sid, addr_bytes(a) + payload);
    law_framed_first(body, rest);
    law_addr_body(a, payload);
}

/// A frame for a name, whatever follows it, is read back whole: its session, its name, its port and
/// its payload.
pub proof fn law_mux_name_roundtrip(sid: u32, name: Seq<u8>, port: u16, payload: Seq<u8>, rest: Seq<u8>)
    requires
        name.len() <= 255,
        mux_frame(sid, name_bytes(name, port), payload) is Some,
    ensures
        ({
            let f = mux_frame(sid, name_bytes(name, port), payload)->0;
            let body = (f + rest).subrange(2, f.len() as int);
            &&& first_frame(f + rest) == Some(f.len() as int)
            &&& sid_of(body) == sid
            &&& mux_payload(body) == payload
            &&& mux_datagram(body) == Some(Datagram { host: lossy_text(name), port, payload })
        }),
{
    let body = mux_body(sid, name_bytes(name, port) + payload);
    lemma_mux_body(sid, name_bytes(name, port) + payload);
    law_framed_first(body, rest);
    law_name_body(name, port, payload);
}

/// The two readers of a frame agree: what is asked to be sent carries the payload that is delivered,
/// and a frame that asks for nothing delivers nothing.
pub proof fn law_mux_readers_agree(body: Seq<u8>)
    ensures
        match mux_datagram(body) {
            Some(d) => d.payload == mux_payload(body),
            None => mux_payload(body).len() == 0,
        },
{
}

/// What is left over behind the complete frames is always less than one frame.
pub proof fn law_rest_bounded(buf: Seq<u8>)
    ensures
        rest_of(buf).len() < 65537,
    decreases buf.len(),
{
    match first_frame(buf) {
        Some(n) => law_rest_bounded(buf.skip(n)),
        None => {},
    }
}

/// Where a session's replies go: the socket that sends them, by number, and the client.
#[derive(Clone, Copy)]
pub struct FlowEntry {
    pub reply: u64,
    pub client: SocketAddr,
}

/// A payload to be sent to a client from a reply socket.
pub struct Delivery {
    pub entry: FlowEntry,
    pub payload: Vec<u8>,
}

/// One tunnel that carries many sessions.
pub struct MuxTunnel {
    pub flows: Table<u32, FlowEntry>,
    pub next_sid: u32,
    pub alive: bool,
    pub acc: Vec<u8>,
}

/// The deliveries that frame bodies call for: of each body with a payload and a registered session,
/// in order.
pub open spec fn deliveries(bodies: Seq<Seq<u8>>, flows: Map<u32, FlowEntry>) -> Seq<(FlowEntry, Seq<u8>)>
    decreases bodies.len(),
{
    if bodies.len() == 0 {
        seq![]
    } else {
        let b = bodies.last();
        let head = deliveries(bodies.drop_last(), flows);
        if mux_payload(b).len() > 0 && flows.dom().contains(sid_of(b)) {
            head.push((flows[sid_of(b)], mux_payload(b)))
        } else {
            head
        }
    }
}

impl MuxTunnel {
    /// The table of sessions has distinct session numbers.
    pub open spec fn wf(&self) -> bool {
        self.flows.wf()
    }

    /// A live tunnel without sessions; the first session number is 1.
    pub fn new() -> (r: MuxTunnel)
        ensures
            r.wf(),
            r.flows@ == Map::<u32, FlowEntry>::empty(),
            r.next_sid == 1,
            r.alive,
            r.acc@.len() == 0,
    {
        MuxTunnel { flows: Table::new(), next_sid: 1, alive: true, acc: Vec::new() }
    }

    /// Whether the tunnel can still be used.
    pub fn is_alive(&self) -> (r: bool)
        ensures
            r == self.alive,
    {
        self.alive
    }

    /// Marks the tunnel as dead: a write or a read on it failed or idled out.
    pub fn end(&mut self)
        ensures
            !final(self).alive,
            final(self).flows == old(self).flows,
            final(self).next_sid == old(self).next_sid,
            final(self).acc == old(self).acc,
    {
        self.alive = false;
    }

    /// Hands out the next session number, which counts up and wraps.
    pub fn alloc_sid(&mut self) -> (r: u32)
        ensures
            r == old(self).next_sid,
            final(self).next_sid == (old(self).next_sid + 1) % 0x1_0000_0000,
            final(self).flows == old(self).flows,
            final(self).alive == old(self).alive,
            final(self).acc == old(self).acc,
    {
        let r: u32 = self.next_sid;
        self.next_sid = if r == u32::MAX {
            0
        } else {
            r + 1
        };
        r
    }

    /// Registers where the replies of a session go.
    pub fn register(&mut self, sid: u32, reply: u64, client: SocketAddr)
        requires
            old(self).wf(),
        ensures
            final(self).wf(),
            final(self).flows@ == old(self).flows@.insert(sid, (FlowEntry { reply, client })),
            final(self).next_sid == old(self).next_sid,
            final(self).alive == old(self).alive,
            final(self).acc == old(self).acc,
    {
        self.flows.insert(sid, FlowEntry { reply, client });
    }

    /// Forgets a session.
    pub fn unregister(&mut self, sid: u32)
        requires
            old(self).wf(),
        ensures
            final(self).wf(),
            final(self).flows@ == old(self).flows@.remove(sid),
            final(self).next_sid == old(self).next_sid,
            final(self).alive == old(self).alive,
            final(self).acc == old(self).acc,
    {
        let _gone: Option<FlowEntry> = self.flows.remove(&sid);
    }

    /// Takes in a chunk of the tunnel's stream and says what is to be delivered.
    pub fn on_chunk(&mut self, chunk: &[u8]) -> (r: Vec<Delivery>)
        requires
            old(self).wf(),
        ensures
            final(self).wf(),
            final(self).flows == old(self).flows,
            final(self).next_sid == old(self).next_sid,
            final(self).alive == old(self).alive,
            final(self).acc@ == rest_of(old(self).acc@ + chunk@),
            ({
                let want = deliveries(frames_in(old(self).acc@ + chunk@), old(self).flows@);
                &&& r@.len() == want.len()
                &&& forall|i: int| 0 <= i < r@.len() ==> (#[trigger] r@[i]).entry == want[i].0 && r@[i].payload@ == want[i].1
            }),
    {
        let mut acc: Vec<u8> = Vec::new();
        push_bytes(&mut acc, self.acc.as_slice());
        push_bytes(&mut acc, chunk);
        assert(acc@ =~= old(self).acc@ + chunk@);
        let ghost all = frames_in(acc@);
        let bodies: Vec<Vec<u8>> = take_frames(&mut acc);
        self.acc = acc;
        let mut out: Vec<Delivery> = Vec::new();
        let mut i: usize = 0;
        assert(all.take(0) =~= seq![]);
        while i < bodies.len()
            invariant
                self.wf(),
                self.flows == old(self).flows,
                bodies@.len() == all.len(),
                i <= bodies@.len(),
                forall|k: int| 0 <= k < bodies@.len() ==> (#[trigger] bodies@[k])@ == all[k],
                out@.len() == deliveries(all.take(i as int), self.flows@).len(),
                forall|k: int|
                    0 <= k < out@.len() ==> (#[trigger] out@[k]).entry == deliveries(all.take(i as int), self.flows@)[k].0
                        && out@[k].payload@ == deliveries(all.take(i as int), self.flows@)[k].1,
            decreases bodies@.len() - i,
        {
            assert(bodies@[i as int]@ == all[i as int]);
            assert(all.take(i + 1).drop_last() =~= all.take(i as int));
            assert(all.take(i + 1).last() == all[i as int]);
            let (sid, payload): (u32, Vec<u8>) = read_mux_body(bodies[i].as_slice());
            if payload.len() > 0 {
                match self.flows.get(&sid) {
                    Some(e) => {
                        out.push(Delivery { entry: *e, payload });
                    },
                    None => {},
                }
            }
            i = i + 1;
        }
        assert(all.take(i as int) =~= all);
        out
    }
}

/// A session that was registered receives what comes in under its number, and one that was
/// unregistered receives nothing.
pub proof fn law_delivery_by_session(body: Seq<u8>, flows: Map<u32, FlowEntry>, sid: u32, e: FlowEntry)
    requires
        sid_of(body) == sid,
        mux_payload(body).len() > 0,
    ensures
        deliveries(seq![body], flows.insert(sid, e)) == seq![(e, mux_payload(body))],
        deliveries(seq![body], flows.remove(sid)).len() == 0,
{
    reveal_with_fuel(deliveries, 2);
    assert(seq![body].drop_last() =~= Seq::<Seq<u8>>::empty());
    assert(deliveries(seq![body], flows.insert(sid, e)) =~= seq![(e, mux_payload(body))]);
}

/// How many queued frames are merged into one write that starts with `len` bytes.
pub open spec fn merged_count(len: int, queued: Seq<Seq<u8>>) -> int
    decreases queued.len(),
{
    if len >= MUX_UPLINK_COALESCE_CAP || queued.len() == 0 {
        0
    } else {
        1 + merged_count(len + queued[0].len(), queued.drop_first())
    }
}

/// Byte strings one behind another.
pub open spec fn concat(parts: Seq<Seq<u8>>) -> Seq<u8>
    decreases parts.len(),
{
    if parts.len() == 0 {
        seq![]
    } else {
        concat(parts.drop_last()) + parts.last()
    }
}

/// Vectors as sequences.
pub open spec fn views(v: Seq<Vec<u8>>) -> Seq<Seq<u8>> {
    Seq::new(v.len(), |i: int| v[i]@)
}

/// Merges queued frames into one write: frames are added while the write is below the cap. Returns
/// the write and the number of queued frames in it.
pub fn coalesce(first: Vec<u8>, queued: &Vec<Vec<u8>>) -> (r: (Vec<u8>, usize))
    ensures
        r.1 == merged_count(first@.len() as int, views(queued@)),
        r.1 <= queued@.len(),
        r.0@ == first@ + concat(views(queued@).take(r.1 as int)),
{
    let ghost q = views(queued@);
    let ghost f0 = first@;
    let mut batch: Vec<u8> = first;
    let mut n: usize = 0;
    assert(q.take(0) =~= seq![]);
    assert(q.skip(0) =~= q);
    assert(f0 + concat(q.take(0)) =~= f0);
    while n < queued.len() && batch.len() < MUX_UPLINK_COALESCE_CAP
        invariant
            q == views(queued@),
            n <= queued@.len(),
            merged_count(f0.len() as int, q) == n + merged_count(batch@.len() as int, q.skip(n as int)),
            batch@ == f0 + concat(q.take(n as int)),
        decreases queued@.len() - n,
    {
        assert(q.skip(n as int).drop_first() =~= q.skip(n + 1));
        assert(q.skip(n as int)[0] == queued@[n as int]@);
        assert(q.take(n + 1).drop_last() =~= q.take(n as int));
        let ghost b0 = batch@;
        push_bytes(&mut batch, queued[n].as_slice());
        n = n + 1;
        assert(batch@ =~= f0 + concat(q.take(n as int)));
    }
    (batch, n)
}

/// The tunnels that the flows of one outbound are spread over.
pub struct MuxSet {
    pub slots: Vec<Option<MuxTunnel>>,
}

impl MuxSet {
    /// There is at least one slot.
    pub open spec fn wf(&self) -> bool {
        self.slots@.len() > 0
    }

    /// `k` empty slots, at least one.
    pub fn new(k: usize) -> (r: MuxSet)
        ensures
            r.wf(),
            r.slots@.len() == if k == 0 {
                1
            } else {
                k as int
            },
            forall|i: int| 0 <= i < r.slots@.len() ==> (#[trigger] r.slots@[i]) is None,
    {
        let n: usize = if k == 0 {
            1
        } else {
            k
        };
        let mut slots: Vec<Option<MuxTunnel>> = Vec::new();
        let mut i: usize = 0;
        while i < n
            invariant
                i <= n,
                slots@.len() == i,
                forall|j: int| 0 <= j < i ==> (#[trigger] slots@[j]) is None,
            decreases n - i,
        {
            slots.push(None);
            i = i + 1;
        }
        MuxSet { slots }
    }

    /// The slot of a flow, by the hash of its addresses.
    pub fn slot_for(&self, hash: u64) -> (r: usize)
        requires
            self.wf(),
        ensures
            r == hash as int % self.slots@.len() as int,
            r < self.slots@.len(),
    {
        (hash % (self.slots.len() as u64)) as usize
    }

    /// True where the slot holds a live tunnel, which is used again; otherwise a new one is to be
    /// opened for it.
    pub fn reusable(&self, slot: usize) -> (r: bool)
        requires
            slot < self.slots@.len(),
        ensures
            r == (self.slots@[slot as int] matches Some(t) && t.alive),
    {
        match &self.slots[slot] {
            Some(t) => t.is_alive(),
            None => false,
        }
    }

    /// Puts a newly opened tunnel in a slot.
    pub fn install(&mut self, slot: usize, t: MuxTunnel)
        requires
            slot < old(self).slots@.len(),
        ensures
            final(self).slots@ == old(self).slots@.update(slot as int, Some(t)),
    {
        self.slots.set(slot, Some(t));
    }
}

/// The tunnel sets of all outbounds, by the number of the outbound's pool.
pub struct MuxRegistry {
    pub sets: Table<u64, MuxSet>,
}

impl MuxRegistry {
    /// Every set has at least one slot.
    pub open spec fn wf(&self) -> bool {
        self.sets.wf() && forall|k: u64| #[trigger] self.sets@.dom().contains(k) ==> self.sets@[k].wf()
    }

    /// A registry without sets.
    pub fn new() -> (r: MuxRegistry)
        ensures
            r.wf(),
            r.sets@ == Map::<u64, MuxSet>::empty(),
    {
        MuxRegistry { sets: Table::new() }
    }

    /// Drops the sets of pools that are gone and makes sure that `pool` has one, with `k` slots where
    /// it is new.
    pub fn enter(&mut self, pool: u64, live: &Vec<u64>, k: usize)
        requires
            old(self).wf(),
        ensures
            final(self).wf(),
            final(self).sets@.dom().contains(pool),
            forall|p: u64|
                p != pool ==> (#[trigger] final(self).sets@.dom().contains(p) <==> old(self).sets@.dom().contains(p)
                    && live@.contains(p)),
            forall|p: u64|
                #[trigger] final(self).sets@.dom().contains(p) && (p != pool || old(self).sets@.dom().contains(p)
                    && live@.contains(p)) ==> final(self).sets@[p] == old(self).sets@[p],
            !(old(self).sets@.dom().contains(pool) && live@.contains(pool)) ==> final(self).sets@[pool].slots@.len()
                == if k == 0 {
                1
            } else {
                k as int
            } && forall|i: int|
                0 <= i < final(self).sets@[pool].slots@.len() ==> (#[trigger] final(self).sets@[pool].slots@[i]) is None,
    {
        let mut keep: Vec<bool> = Vec::new();
        let n: usize = self.sets.len();
        let mut i: usize = 0;
        while i < n
            invariant
                n == self.sets.keys().len(),
                i <= n,
                keep@.len() == i,
                forall|j: int| 0 <= j < i ==> keep@[j] == live@.contains(#[trigger] self.sets.keys()[j]),
            decreases n - i,
        {
            let key: u64 = *self.sets.key_at(i);
            keep.push(contains_u64(live, key));
            i = i + 1;
        }
        let ghost before = self.sets;
        self.sets.retain_marked(&keep);
        proof {
            assert forall|p: u64| #[trigger] self.sets@.dom().contains(p) <==> before@.dom().contains(p) && live@.contains(p) by {
                if before@.dom().contains(p) {
                    let j = before.keys().index_of(p);
                    assert(before.keys().contains(p));
                    assert(before.keys()[j] == p);
                }
            }
        }
        if !self.sets.contains(&pool) {
            self.sets.insert(pool, MuxSet::new(k));
        }
    }
}

fn contains_u64(v: &Vec<u64>, x: u64) -> (r: bool)
    ensures
        r == v@.contains(x),
{
    let mut i: usize = 0;
    while i < v.len()
        invariant
            i <= v@.len(),
            forall|j: int| 0 <= j < i ==> v@[j] != x,
        decreases v@.len() - i,
    {
        if v[i] == x {
            return true;
        }
        i = i + 1;
    }
    false
}

/// A datagram is framed exactly where its body, session number and address with it, has no more than 65535
/// bytes.
pub proof fn law_mux_frame_fits(sid: u32, addr: Seq<u8>, payload: Seq<u8>)
    ensures
        mux_frame(sid, addr, payload) is Some <==> 4 + addr.len() + payload.len() <= 65535,
        mux_frame(sid, addr, payload) matches Some(f) ==> f.len() == 6 + addr.len() + payload.len(),
{
}

/// The requests of frames are those of each, in order, each under its own session; a malformed frame leaves
/// no gap and stops nothing.
pub proof fn law_requests_in_order(a: Seq<Seq<u8>>, sid: u32, d: Datagram, f: Seq<u8>, b: Seq<Seq<u8>>)
    ensures
        f.len() >= 4 && 16777216 * f[0] + 65536 * f[1] + 256 * f[2] + f[3] == sid && datagram_of(f.skip(4)) == Some(d)
            ==> mux_requests(a + seq![f] + b) == mux_requests(a) + seq![(sid, d)] + mux_requests(b),
        f.len() < 4 || datagram_of(f.skip(4)) is None ==> mux_requests(a + seq![f] + b) == mux_requests(a) + mux_requests(b),
    decreases b.len(),
{
    let s = a + seq![f] + b;
    if b.len() == 0 {
        assert(s.drop_last() =~= a);
        assert(s.last() == f);
        assert(mux_requests(a) + mux_requests(b) =~= mux_requests(a));
        assert(mux_requests(a).push((sid, d)) =~= mux_requests(a) + seq![(sid, d)] + mux_requests(b));
    } else {
        law_requests_in_order(a, sid, d, f, b.drop_last());
        assert(s.drop_last() =~= a + seq![f] + b.drop_last());
        assert(s.last() == b.last());
        let x = mux_requests(b.drop_last());
        match mux_request(b.last()) {
            Some(e) => {
                assert((mux_requests(a) + seq![(sid, d)] + x).push(e) =~= mux_requests(a) + seq![(sid, d)] + x.push(e));
                assert((mux_requests(a) + x).push(e) =~= mux_requests(a) + x.push(e));
            },
            None => {},
        }
    }
}

/// What comes down is delivered frame by frame and in order, each payload to the session that its frame
/// names; a frame without a payload, or for a session that nobody registered, is passed over.
pub proof fn law_deliveries_in_order(a: Seq<Seq<u8>>, f: Seq<u8>, b: Seq<Seq<u8>>, flows: Map<u32, FlowEntry>)
    ensures
        mux_payload(f).len() > 0 && flows.dom().contains(sid_of(f)) ==> deliveries(a + seq![f] + b, flows) == deliveries(
            a,
            flows,
        ) + seq![(flows[sid_of(f)], mux_payload(f))] + deliveries(b, flows),
        mux_payload(f).len() == 0 || !flows.dom().contains(sid_of(f)) ==> deliveries(a + seq![f] + b, flows) == deliveries(
            a,
            flows,
        ) + deliveries(b, flows),
    decreases b.len(),
{
    let s = a + seq![f] + b;
    let e = (flows[sid_of(f)], mux_payload(f));
    let da = deliveries(a, flows);
    if b.len() == 0 {
        assert(s.drop_last() =~= a);
        assert(s.last() == f);
        assert(da + deliveries(b, flows) =~= da);
        assert(da.push(e) =~= da + seq![e] + deliveries(b, flows));
    } else {
        law_deliveries_in_order(a, f, b.drop_last(), flows);
        assert(s.drop_last() =~= a + seq![f] + b.drop_last());
        assert(s.last() == b.last());
        let x = deliveries(b.drop_last(), flows);
        let g = (flows[sid_of(b.last())], mux_payload(b.last()));
        assert((da + seq![e] + x).push(g) =~= da + seq![e] + x.push(g));
        assert((da + x).push(g) =~= da + x.push(g));
    }
}

proof fn lemma_concat_front(parts: Seq<Seq<u8>>)
    requires
        parts.len() > 0,
    ensures
        concat(parts) == parts[0] + concat(parts.drop_first()),
    decreases parts.len(),
{
    if parts.len() == 1 {
        assert(parts.drop_last() =~= seq![]);
        assert(parts.drop_first() =~= seq![]);
        assert(concat(parts) =~= parts[0] + concat(parts.drop_first()));
    } else {
        lemma_concat_front(parts.drop_last());
        assert(parts.drop_last().drop_first() =~= parts.drop_first().drop_last());
        assert(concat(parts) =~= parts[0] + concat(parts.drop_first()));
    }
}

/// Queued frames are merged into a write in their order, as long as it is below sixteen thousand three
/// hundred and eighty-four bytes and there are any, and no longer.
pub proof fn law_merged_up_to_cap(len: int, queued: Seq<Seq<u8>>, j: int)
    ensures
        ({
            let k = merged_count(len, queued);
            &&& 0 <= k <= queued.len()
            &&& 0 <= j < k ==> len + concat(queued.take(j)).len() < 16384
            &&& k < queued.len() ==> len + concat(queued.take(k)).len() >= 16384
        }),
    decreases queued.len(),
{
    let k = merged_count(len, queued);
    assert(queued.take(0) =~= seq![]);
    if len < 16384 && queued.len() > 0 {
        let rest = queued.drop_first();
        law_merged_up_to_cap(len + queued[0].len(), rest, j - 1);
        if 0 < j <= queued.len() {
            lemma_concat_front(queued.take(j));
            assert(queued.take(j).drop_first() =~= rest.take(j - 1));
        }
        lemma_concat_front(queued.take(k));
        assert(queued.take(k).drop_first() =~= rest.take(k - 1));
    }
}

} // verus!
