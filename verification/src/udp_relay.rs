//! Relaying the datagrams of a client: every datagram is routed by its own target, and what carries
//! it is kept for the next one.

use vstd::prelude::*;

use crate::frames::{
    addr_bytes, frame_body, framed, frames_in, name_bytes, push_addr, rest_of, take_frames, ATYP_NAME, ATYP_V4, ATYP_V6,
};
use crate::ip::{opt_ip, opt_socket, IpAddr, SocketAddr, SocketView};
use crate::outbound::OutboundNode;
use crate::table::{Key, Table};
use crate::text::{opt_text, same_text, utf8_string, utf8_text};
use crate::transparent_udp::byte_views;
use crate::wire::{be16, copy_16, copy_range, lemma_be16_at, push_bytes, push_u16, read_u16, same_bytes, u16_at};

verus! {

/// Where a datagram goes.
pub enum UdpTarget {
    Ip(SocketAddr),
    Domain(String, u16),
}

/// Where a datagram goes, as a value.
#[verifier::ext_equal]
pub enum UdpTargetView {
    Ip(SocketView),
    Domain(Seq<char>, u16),
}

impl View for UdpTarget {
    type V = UdpTargetView;

    open spec fn view(&self) -> UdpTargetView {
        match *self {
            UdpTarget::Ip(a) => UdpTargetView::Ip(a@),
            UdpTarget::Domain(h, p) => UdpTargetView::Domain(h@, p),
        }
    }
}

/// The target at the front of `b`, and how many bytes it takes. A name must be valid UTF-8.
pub open spec fn socks_target(b: Seq<u8>) -> Option<(UdpTargetView, int)> {
    if b.len() == 0 {
        None
    } else if b[0] == ATYP_V4 {
        if b.len() < 7 {
            None
        } else {
            Some((UdpTargetView::Ip(SocketView::V4(b.subrange(1, 5), u16_at(b, 5) as u16)), 7))
        }
    } else if b[0] == ATYP_V6 {
        if b.len() < 19 {
            None
        } else {
            Some((UdpTargetView::Ip(SocketView::V6(b.subrange(1, 17), u16_at(b, 17) as u16, 0)), 19))
        }
    } else if b[0] == ATYP_NAME {
        if b.len() < 2 || b.len() < 4 + b[1] {
            None
        } else {
            match utf8_text(b.subrange(2, 2 + b[1])) {
                None => None,
                Some(h) => Some((UdpTargetView::Domain(h, u16_at(b, 2 + b[1]) as u16), 4 + b[1])),
            }
        }
    } else {
        None
    }
}

/// Reads the target at the front of `b`, and how many bytes it takes.
pub fn parse_socks_udp_addr(b: &[u8]) -> (r: Option<(UdpTarget, usize)>)
    ensures
        match r {
            Some(x) => socks_target(b@) == Some((x.0@, x.1 as int)) && x.1 <= b@.len(),
            None => socks_target(b@) is None,
        },
{
    if b.len() == 0 {
        return None;
    }
    let kind: u8 = b[0];
    if kind == ATYP_V4 {
        if b.len() < 7 {
            return None;
        }
        let o: [u8; 4] = [b[1], b[2], b[3], b[4]];
        assert(o@ =~= b@.subrange(1, 5));
        let port: u16 = read_u16(b, 5);
        return Some((UdpTarget::Ip(SocketAddr::V4(o, port)), 7));
    }
    if kind == ATYP_V6 {
        if b.len() < 19 {
            return None;
        }
        let o: [u8; 16] = copy_16(b, 1);
        let port: u16 = read_u16(b, 17);
        return Some((UdpTarget::Ip(SocketAddr::V6(o, port, 0)), 19));
    }
    if kind == ATYP_NAME {
        if b.len() < 2 {
            return None;
        }
        let n: usize = b[1] as usize;
        if b.len() < 4 + n {
            return None;
        }
        let name: Vec<u8> = copy_range(b, 2, 2 + n);
        let port: u16 = read_u16(b, 2 + n);
        return match utf8_string(name.as_slice()) {
            Some(h) => Some((UdpTarget::Domain(h, port), 4 + n)),
            None => None,
        };
    }
    None
}

/// Encodes an address: its type, its octets and its port.
pub fn encode_socks_udp_addr(addr: SocketAddr) -> (r: Vec<u8>)
    ensures
        r@ == addr_bytes(addr@),
{
    let mut out: Vec<u8> = Vec::new();
    push_addr(&mut out, &addr);
    assert(out@ =~= addr_bytes(addr@));
    out
}

/// An encoded address is read back, whatever follows it.
pub proof fn law_socks_addr_roundtrip(a: SocketView, rest: Seq<u8>)
    requires
        match a {
            SocketView::V4(o, p) => o.len() == 4,
            SocketView::V6(o, p, s) => o.len() == 16 && s == 0,
        },
    ensures
        socks_target(addr_bytes(a) + rest) == Some((UdpTargetView::Ip(a), addr_bytes(a).len() as int)),
{
    let b = addr_bytes(a) + rest;
    match a {
        SocketView::V4(o, p) => {
            assert(b.subrange(1, 5) =~= o);
            assert(b.subrange(5, 7) =~= be16(p));
            lemma_be16_at(p, b, 5);
        },
        SocketView::V6(o, p, _) => {
            assert(b.subrange(1, 17) =~= o);
            assert(b.subrange(17, 19) =~= be16(p));
            lemma_be16_at(p, b, 17);
        },
    }
}

/// The answer to a request for relaying datagrams: success, and the port to send them to.
pub open spec fn associate_answer(port: u16) -> Seq<u8> {
    seq![5u8, 0, 0, 1, 0, 0, 0, 0] + be16(port)
}

/// The answer to a request for relaying datagrams.
pub fn associate_reply(port: u16) -> (r: Vec<u8>)
    ensures
        r@ == associate_answer(port),
{
    let mut out: Vec<u8> = Vec::new();
    let head: [u8; 8] = [5u8, 0, 0, 1, 0, 0, 0, 0];
    push_bytes(&mut out, head.as_slice());
    push_u16(&mut out, port);
    assert(head@ =~= seq![5u8, 0, 0, 1, 0, 0, 0, 0]);
    assert(out@ =~= associate_answer(port));
    out
}

/// A datagram for the client: an empty head, the address it came from, and its payload.
pub fn wrap_reply(from: &SocketAddr, payload: &[u8]) -> (r: Vec<u8>)
    ensures
        r@ == seq![0u8, 0, 0] + addr_bytes(from@) + payload@,
{
    let mut out: Vec<u8> = Vec::new();
    out.push(0);
    out.push(0);
    out.push(0);
    push_addr(&mut out, from);
    push_bytes(&mut out, payload);
    assert(out@ =~= seq![0u8, 0, 0] + addr_bytes(from@) + payload@);
    out
}

/// Frames from a tunnel as datagrams for the client: an empty head before each.
pub open spec fn headed(frames: Seq<Seq<u8>>) -> Seq<Seq<u8>> {
    Seq::new(frames.len(), |i: int| seq![0u8, 0, 0] + frames[i])
}

/// Takes the whole frames off what came down a tunnel, as datagrams for the client.
pub fn unwrap_frames(acc: &mut Vec<u8>) -> (r: Vec<Vec<u8>>)
    ensures
        byte_views(r@) == headed(frames_in(old(acc)@)),
        final(acc)@ == rest_of(old(acc)@),
{
    let ghost all = acc@;
    let frames: Vec<Vec<u8>> = take_frames(acc);
    let mut out: Vec<Vec<u8>> = Vec::new();
    let mut i: usize = 0;
    while i < frames.len()
        invariant
            i <= frames@.len(),
            frames@.len() == frames_in(all).len(),
            forall|k: int| 0 <= k < frames@.len() ==> (#[trigger] frames@[k])@ == frames_in(all)[k],
            out@.len() == i,
            forall|k: int| 0 <= k < i ==> (#[trigger] out@[k])@ == headed(frames_in(all))[k],
        decreases frames@.len() - i,
    {
        let mut d: Vec<u8> = Vec::new();
        d.push(0);
        d.push(0);
        d.push(0);
        push_bytes(&mut d, frames[i].as_slice());
        assert(d@ =~= seq![0u8, 0, 0] + frames_in(all)[i as int]);
        out.push(d);
        i = i + 1;
    }
    assert(byte_views(out@) =~= headed(frames_in(all)));
    out
}

/// What carries the datagrams for an outbound.
#[derive(Clone, Copy, PartialEq, Eq, Structural, Debug)]
pub enum Sink {
    Direct,
    Mirage,
    Block,
}

/// What carries datagrams through an outbound; `None` where nothing does.
pub open spec fn sink_of(n: OutboundNode) -> Option<Sink> {
    match n {
        OutboundNode::Block { .. } => Some(Sink::Block),
        OutboundNode::Direct { .. } => Some(Sink::Direct),
        OutboundNode::Mirage { .. } => Some(Sink::Mirage),
        _ => None,
    }
}

/// What carries datagrams through an outbound.
pub fn sink_for(n: &OutboundNode) -> (r: Option<Sink>)
    ensures
        r == sink_of(*n),
{
    match n {
        OutboundNode::Block { .. } => Some(Sink::Block),
        OutboundNode::Direct { .. } => Some(Sink::Direct),
        OutboundNode::Mirage { .. } => Some(Sink::Mirage),
        _ => None,
    }
}

/// A name and a port.
pub struct NamePort {
    pub name: String,
    pub port: u16,
}

impl Key for NamePort {
    type Model = (Seq<char>, u16);

    open spec fn model(&self) -> (Seq<char>, u16) {
        (self.name@, self.port)
    }

    fn same(&self, other: &NamePort) -> (r: bool) {
        self.port == other.port && same_text(self.name.as_str(), other.name.as_str())
    }
}

/// Whether two addresses are the same.
pub fn same_socket(a: &SocketAddr, b: &SocketAddr) -> (r: bool)
    ensures
        r == (a@ == b@),
{
    match (a, b) {
        (SocketAddr::V4(x, p), SocketAddr::V4(y, q)) => {
            let r: bool = same_bytes(x.as_slice(), y.as_slice());
            r && *p == *q
        },
        (SocketAddr::V6(x, p, s), SocketAddr::V6(y, q, t)) => {
            let r: bool = same_bytes(x.as_slice(), y.as_slice());
            r && *p == *q && *s == *t
        },
        _ => false,
    }
}

/// The relay of one client: the address it sends from, what carries the datagrams of each outbound,
/// and the addresses of names.
pub struct Associate {
    pub client: Option<SocketAddr>,
    pub sinks: Table<String, Sink>,
    pub resolved: Table<NamePort, SocketAddr>,
}

/// A client's datagram: its target, and its bytes from the target on.
pub struct ClientDatagram {
    pub target: UdpTarget,
    pub offset: usize,
    pub body: Vec<u8>,
}

/// The part of a client's datagram behind its head; `None` where the head is not empty. Fragments are
/// not accepted.
pub open spec fn datagram_body(data: Seq<u8>) -> Option<Seq<u8>> {
    if data.len() < 4 || data[0] != 0 || data[1] != 0 || data[2] != 0 {
        None
    } else {
        Some(data.skip(3))
    }
}

/// A client's datagram is for a target.
pub open spec fn accepted(data: Seq<u8>) -> Option<(UdpTargetView, int)> {
    match datagram_body(data) {
        None => None,
        Some(b) => socks_target(b),
    }
}

/// What is done with a datagram.
pub enum Sending {
    /// Nothing.
    Drop,
    /// Its payload is sent to the address.
    To(SocketAddr),
    /// The name is resolved first.
    Resolve(String, u16),
    /// The frame is sent through the tunnel.
    Frame(Vec<u8>),
}

/// What is done with a datagram, as a value.
pub enum SendingView {
    Drop,
    To(SocketAddr),
    Resolve(Seq<char>, u16),
    Frame(Seq<u8>),
}

/// A decision as a value.
pub open spec fn sending_view(s: Sending) -> SendingView {
    match s {
        Sending::Drop => SendingView::Drop,
        Sending::To(a) => SendingView::To(a),
        Sending::Resolve(n, p) => SendingView::Resolve(n@, p),
        Sending::Frame(f) => SendingView::Frame(f@),
    }
}

/// What is done with a datagram, by where it is sent, its target, itself with its target, and the names that
/// were resolved.
pub open spec fn sending_of(s: Sink, t: UdpTarget, body: Seq<u8>, known: Map<(Seq<char>, u16), SocketAddr>) -> SendingView {
    match s {
        Sink::Block => SendingView::Drop,
        Sink::Mirage => SendingView::Frame(framed(body)),
        Sink::Direct => match t {
            UdpTarget::Ip(a) => if a is V6 {
                SendingView::Drop
            } else {
                SendingView::To(a)
            },
            UdpTarget::Domain(h, p) => if !known.dom().contains((h@, p)) {
                SendingView::Resolve(h@, p)
            } else if known[(h@, p)] is V6 {
                SendingView::Drop
            } else {
                SendingView::To(known[(h@, p)])
            },
        },
    }
}

impl Associate {
    /// No outbound and no name is listed twice.
    pub open spec fn wf(&self) -> bool {
        self.sinks.wf() && self.resolved.wf()
    }

    /// A relay that has seen no datagram.
    pub fn new() -> (r: Associate)
        ensures
            r.wf(),
            r.client is None,
            r.sinks@ == Map::<Seq<char>, Sink>::empty(),
            r.resolved@ == Map::<(Seq<char>, u16), SocketAddr>::empty(),
    {
        Associate { client: None, sinks: Table::new(), resolved: Table::new() }
    }

    /// Takes in a datagram. The first sender is the client, and datagrams from anybody else are not
    /// accepted; nor are those with a malformed head or target.
    pub fn on_datagram(&mut self, from: SocketAddr, data: &[u8]) -> (r: Option<ClientDatagram>)
        requires
            old(self).wf(),
        ensures
            final(self).wf(),
            final(self).sinks == old(self).sinks,
            final(self).resolved == old(self).resolved,
            opt_socket(final(self).client) == (if old(self).client is None {
                Some(from@)
            } else {
                opt_socket(old(self).client)
            }),
            opt_socket(final(self).client) != Some(from@) ==> r is None,
            opt_socket(final(self).client) == Some(from@) ==> match accepted(data@) {
                None => r is None,
                Some(t) => r matches Some(d) && d.target@ == t.0 && d.offset == t.1 && d.body@ == data@.skip(3)
                    && d.offset <= d.body@.len(),
            },
    {
        let mine: bool = match &self.client {
            Some(c) => same_socket(c, &from),
            None => true,
        };
        if self.client.is_none() {
            self.client = Some(from);
        }
        if !mine {
            return None;
        }
        if data.len() < 4 || data[0] != 0 || data[1] != 0 || data[2] != 0 {
            return None;
        }
        let body: Vec<u8> = copy_range(data, 3, data.len());
        assert(body@ =~= data@.skip(3));
        match parse_socks_udp_addr(body.as_slice()) {
            None => None,
            Some(t) => Some(ClientDatagram { target: t.0, offset: t.1, body }),
        }
    }

    /// What carries the datagrams of an outbound, where that is known already.
    pub fn sink(&self, tag: &String) -> (r: Option<Sink>)
        requires
            self.wf(),
        ensures
            match r {
                Some(s) => self.sinks@.dom().contains(tag@) && self.sinks@[tag@] == s,
                None => !self.sinks@.dom().contains(tag@),
            },
    {
        match self.sinks.get(tag) {
            Some(s) => Some(*s),
            None => None,
        }
    }

    /// Remembers what carries the datagrams of an outbound.
    pub fn sink_built(&mut self, tag: String, s: Sink)
        requires
            old(self).wf(),
        ensures
            final(self).wf(),
            final(self).sinks@ == old(self).sinks@.insert(tag@, s),
            final(self).client == old(self).client,
            final(self).resolved == old(self).resolved,
    {
        self.sinks.insert(tag, s);
    }

    /// Forgets what carried the datagrams of an outbound, as its tunnel broke; the next datagram
    /// builds another.
    pub fn sink_broken(&mut self, tag: &String)
        requires
            old(self).wf(),
        ensures
            final(self).wf(),
            final(self).sinks@ == old(self).sinks@.remove(tag@),
            final(self).client == old(self).client,
            final(self).resolved == old(self).resolved,
    {
        let _ = self.sinks.remove(tag);
        proof {
            if !old(self).sinks@.dom().contains(tag@) {
                assert(old(self).sinks@.remove(tag@) =~= old(self).sinks@);
            }
        }
    }

    /// Remembers the address of a name.
    pub fn name_resolved(&mut self, name: String, port: u16, a: SocketAddr)
        requires
            old(self).wf(),
        ensures
            final(self).wf(),
            final(self).resolved@ == old(self).resolved@.insert((name@, port), a),
            final(self).client == old(self).client,
            final(self).sinks == old(self).sinks,
    {
        self.resolved.insert(NamePort { name, port }, a);
    }

    /// Decides what is done with a datagram. What a refusing outbound gets is dropped; a version 6
    /// address is not reached directly; through a tunnel the datagram goes with its target.
    pub fn send(&self, s: Sink, d: &ClientDatagram) -> (r: Sending)
        requires
            self.wf(),
        ensures
            match s {
                Sink::Block => r is Drop,
                Sink::Mirage => r matches Sending::Frame(f) && f@ == framed(d.body@),
                Sink::Direct => match d.target {
                    UdpTarget::Ip(a) => if a is V6 {
                        r is Drop
                    } else {
                        r matches Sending::To(x) && x == a
                    },
                    UdpTarget::Domain(h, p) => if self.resolved@.dom().contains((h@, p)) {
                        if self.resolved@[(h@, p)] is V6 {
                            r is Drop
                        } else {
                            r matches Sending::To(x) && x == self.resolved@[(h@, p)]
                        }
                    } else {
                        r matches Sending::Resolve(n, q) && n@ == h@ && q == p
                    },
                },
            },
            sending_view(r) == sending_of(s, d.target, d.body@, self.resolved@),
    {
        match s {
            Sink::Block => Sending::Drop,
            Sink::Mirage => Sending::Frame(frame_body(d.body.as_slice())),
            Sink::Direct => {
                match &d.target {
                    UdpTarget::Ip(a) => {
                        match a {
                            SocketAddr::V4(o, p) => Sending::To(SocketAddr::V4(*o, *p)),
                            SocketAddr::V6(_, _, _) => Sending::Drop,
                        }
                    },
                    UdpTarget::Domain(h, p) => {
                        let key: NamePort = NamePort { name: h.clone(), port: *p };
                        match self.resolved.get(&key) {
                            Some(a) => {
                                match a {
                                    SocketAddr::V4(o, q) => Sending::To(SocketAddr::V4(*o, *q)),
                                    SocketAddr::V6(_, _, _) => Sending::Drop,
                                }
                            },
                            None => Sending::Resolve(h.clone(), *p),
                        }
                    },
                }
            },
        }
    }
}

/// What the rules are applied to: the name or the address of the target, and its port.
pub fn datagram_subject(t: &UdpTarget) -> (r: (Option<String>, Option<IpAddr>, u16))
    ensures
        match t@ {
            UdpTargetView::Domain(h, p) => opt_text(r.0) == Some(h) && r.1 is None && r.2 == p,
            UdpTargetView::Ip(a) => r.0 is None && opt_ip(r.1) == Some(a.ip()) && r.2 == a.port(),
        },
{
    match t {
        UdpTarget::Domain(h, p) => (Some(h.clone()), None, *p),
        UdpTarget::Ip(a) => (None, Some(a.ip()), a.port()),
    }
}

/// A datagram for an address or for a name is accepted with exactly that target, and its payload begins
/// right behind it.
pub proof fn law_datagram_accepted(a: SocketView, name: Seq<char>, port: u16, payload: Seq<u8>)
    requires
        match a {
            SocketView::V4(o, p) => o.len() == 4,
            SocketView::V6(o, p, s) => o.len() == 16 && s == 0,
        },
        vstd::utf8::encode_utf8(name).len() <= 255,
    ensures
        accepted(seq![0u8, 0, 0] + (addr_bytes(a) + payload)) == Some((UdpTargetView::Ip(a), addr_bytes(a).len() as int)),
        accepted(seq![0u8, 0, 0] + (name_bytes(vstd::utf8::encode_utf8(name), port) + payload)) == Some(
            (UdpTargetView::Domain(name, port), name_bytes(vstd::utf8::encode_utf8(name), port).len() as int),
        ),
{
    law_socks_addr_roundtrip(a, payload);
    let b = addr_bytes(a) + payload;
    assert((seq![0u8, 0, 0] + b).skip(3) =~= b);
    let e = vstd::utf8::encode_utf8(name);
    let n = e.len() as int;
    let c = name_bytes(e, port) + payload;
    assert((seq![0u8, 0, 0] + c).skip(3) =~= c);
    assert(c[1] == n as u8);
    assert(c.subrange(2, 2 + n) =~= e);
    assert(c.subrange(2 + n, 4 + n) =~= be16(port));
    lemma_be16_at(port, c, 2 + n);
    vstd::utf8::encode_utf8_valid_utf8(name);
    vstd::utf8::encode_utf8_decode_utf8(name);
}

/// A fragment, a head that is not empty, an unknown kind of address and one that is cut off are not
/// accepted.
pub proof fn law_datagram_refused(data: Seq<u8>)
    requires
        data.len() < 4 || data[0] != 0 || data[1] != 0 || data[2] != 0 || (data[3] != 1 && data[3] != 3 && data[3] != 4) || (
        data[3] == 1 && data.len() < 10) || (data[3] == 4 && data.len() < 22) || (data[3] == 3 && (data.len() < 5 || data.len()
            < 7 + data[4])),
    ensures
        accepted(data) is None,
{
    if data.len() >= 4 {
        let b = data.skip(3);
        assert(b[0] == data[3]);
        if data.len() >= 5 {
            assert(b[1] == data[4]);
        }
    }
}

/// The answer to a request names the port to send to, most significant byte first.
pub proof fn law_associate_port(port: u16)
    ensures
        associate_answer(port).len() == 10,
        associate_answer(port)[0] == 5 && associate_answer(port)[1] == 0 && associate_answer(port)[3] == 1,
        256 * associate_answer(port)[8] + associate_answer(port)[9] == port,
{
}

/// What comes down a tunnel as a frame is for the client a datagram from the same address with the same
/// payload: it would be accepted with that address as its target.
pub proof fn law_headed_read_back(frames: Seq<Seq<u8>>, i: int, a: SocketView, payload: Seq<u8>)
    requires
        0 <= i < frames.len(),
        frames[i] == addr_bytes(a) + payload,
        match a {
            SocketView::V4(o, p) => o.len() == 4,
            SocketView::V6(o, p, s) => o.len() == 16 && s == 0,
        },
    ensures
        headed(frames).len() == frames.len(),
        accepted(headed(frames)[i]) == Some((UdpTargetView::Ip(a), addr_bytes(a).len() as int)),
{
    law_socks_addr_roundtrip(a, payload);
    assert((seq![0u8, 0, 0] + frames[i]).skip(3) =~= frames[i]);
}

/// Datagrams are carried by a server, directly, or refused; the other outbounds carry none.
pub proof fn law_sinks(n: OutboundNode)
    ensures
        sink_of(n) == Some(Sink::Mirage) <==> n is Mirage,
        sink_of(n) == Some(Sink::Direct) <==> n is Direct,
        sink_of(n) == Some(Sink::Block) <==> n is Block,
        sink_of(n) is None <==> n is Wireguard || n is Shadowsocks || n is Urltest || n is Fallback || n is Selector || n is LoadBalance,
{
}

/// What a refusing outbound gets is dropped, and through a tunnel every datagram goes with its target in
/// front. Directly it goes to addresses of version 4 only: to its own, or to the one its name was resolved
/// to; a name that was not resolved is resolved first.
pub proof fn law_datagrams_sent(
    t: UdpTarget,
    name: String,
    port: u16,
    body: Seq<u8>,
    known: Map<(Seq<char>, u16), SocketAddr>,
    a: SocketAddr,
)
    ensures
        sending_of(Sink::Block, t, body, known) is Drop,
        sending_of(Sink::Mirage, t, body, known) == SendingView::Frame(framed(body)),
        sending_of(Sink::Direct, UdpTarget::Ip(a), body, known) == if a is V4 {
            SendingView::To(a)
        } else {
            SendingView::Drop
        },
        sending_of(Sink::Direct, UdpTarget::Domain(name, port), body, known.insert((name@, port), a)) == if a is V4 {
            SendingView::To(a)
        } else {
            SendingView::Drop
        },
        sending_of(Sink::Direct, UdpTarget::Domain(name, port), body, known.remove((name@, port))) == SendingView::Resolve(
            name@,
            port,
        ),
{
}

} // verus!
