//! The server's side of a connection: the first message of a client, the limits for clients that do
//! not authenticate, and what an authenticated client asks for.

use vstd::prelude::*;

use crate::frames::{
    addr_bytes, datagram_of, decode_body, frame_body, framed, frames_in, push_addr, rest_of, take_frames, Datagram,
    Outgoing,
};
use crate::ip::{IpAddr, IpView, SocketAddr};
use crate::pool::time_sync;
use crate::seqs::{last_index, lemma_last_index_bounds};
use crate::table::Table;
use crate::text::{
    chars_of, copy_chars, decimal, law_decimal_roundtrip, lemma_colon_port, parse_uint, rfind_char, string_of, uint_text,
    utf8_string, utf8_text,
};
use crate::udp_mux::MUX_SENTINEL;
use crate::upstream::{UdpPolicy, UpstreamOutlet};
use crate::wire::{be64, copy_32, copy_range, lemma_be64_at, push_bytes, push_u64, read_u16, u16_at};

verus! {

/// The length of a record's head.
pub const TLS_RECORD_HEADER_LEN: usize = 5;

/// The longest record.
pub const TLS_RECORD_MAX_BODY: usize = 16384;

/// How many clients may be connected without having authenticated.
pub const MAX_UNAUTH: usize = 5000;

/// How many of these may come from one address.
pub const MAX_UNAUTH_PER_IP: usize = 100;

/// The length of the message that ends a client's handshake.
pub const CLIENT_TAIL_LEN: usize = 64;

/// How long a datagram relay may stay without traffic, in seconds.
pub const UDP_IDLE_TIMEOUT_SECS: u64 = 300;

/// How long a stream relay may stay without traffic, in seconds.
pub const RELAY_IDLE_SECS: u64 = 1800;

/// The body length in the head of a record; `None` where there is no body or too long a one.
pub open spec fn record_body(head: Seq<u8>) -> Option<int> {
    let n = u16_at(head, 3);
    if n == 0 || n > TLS_RECORD_MAX_BODY {
        None
    } else {
        Some(n)
    }
}

/// The body length in the head of a record.
pub fn record_len(head: &[u8; 5]) -> (r: Option<usize>)
    ensures
        match r {
            Some(n) => record_body(head@) == Some(n as int),
            None => record_body(head@) is None,
        },
{
    let n: u16 = read_u16(head.as_slice(), 3);
    if n == 0 || n as usize > TLS_RECORD_MAX_BODY {
        None
    } else {
        Some(n as usize)
    }
}

/// The session token and the random bytes in the first message of a client: it must be a client
/// hello with a session of thirty-two bytes.
pub open spec fn hello_fields(kind: u8, body: Seq<u8>) -> Option<(Seq<u8>, Seq<u8>)> {
    if kind == 0x16 && body.len() >= 71 && body[0] == 1 && body[38] == 32 {
        Some((body.subrange(39, 71), body.subrange(6, 38)))
    } else {
        None
    }
}

/// The session token and the random bytes in the first message of a client. `kind` is the type of
/// the record and `body` its body.
pub fn hello_token(kind: u8, body: &[u8]) -> (r: Option<([u8; 32], [u8; 32])>)
    ensures
        match r {
            Some(x) => hello_fields(kind, body@) == Some((x.0@, x.1@)),
            None => hello_fields(kind, body@) is None,
        },
{
    if kind == 0x16 && body.len() >= 39 && body[0] == 1 {
        let n: u8 = body[38];
        if n == 32 && body.len() >= 71 {
            return Some((copy_32(body, 39), copy_32(body, 6)));
        }
    }
    None
}

/// The address by which clients are counted: of a version 6 address, the network part.
pub open spec fn limit_key(ip: IpView) -> IpView {
    match ip {
        IpView::V4(o) => ip,
        IpView::V6(o) => IpView::V6(Seq::new(16, |i: int| if i < 8 {
            o[i]
        } else {
            0
        })),
    }
}

/// The address by which clients are counted.
pub fn rate_limit_key(ip: IpAddr) -> (r: IpAddr)
    ensures
        r@ == limit_key(ip@),
{
    match ip {
        IpAddr::V4(o) => IpAddr::V4(o),
        IpAddr::V6(o) => {
            let k: [u8; 16] = [o[0], o[1], o[2], o[3], o[4], o[5], o[6], o[7], 0, 0, 0, 0, 0, 0, 0, 0];
            assert(k@ =~= Seq::new(16, |i: int| if i < 8 {
                o@[i]
            } else {
                0
            }));
            IpAddr::V6(k)
        },
    }
}

/// The clients that have not authenticated: how many in all, and how many of each address.
pub struct Unauth {
    pub global: usize,
    pub per_ip: Table<IpAddr, usize>,
}

/// A client takes a place: there is one left in all and one for its address.
pub open spec fn has_place(global: usize, m: Map<IpView, usize>, key: IpView) -> bool {
    global < MAX_UNAUTH && !(m.dom().contains(key) && m[key] >= MAX_UNAUTH_PER_IP)
}

/// The places of each address after a client has taken one.
pub open spec fn place_taken(m: Map<IpView, usize>, key: IpView) -> Map<IpView, usize> {
    m.insert(
        key,
        (if m.dom().contains(key) {
            m[key] + 1
        } else {
            1
        }) as usize,
    )
}

/// The places of each address after a client has given one back.
pub open spec fn place_given(m: Map<IpView, usize>, key: IpView) -> Map<IpView, usize> {
    if !m.dom().contains(key) {
        m
    } else if m[key] <= 1 {
        m.remove(key)
    } else {
        m.insert(key, (m[key] - 1) as usize)
    }
}

impl Unauth {
    /// No address is listed twice, and the limits are kept.
    pub open spec fn wf(&self) -> bool {
        &&& self.per_ip.wf()
        &&& self.global <= MAX_UNAUTH
        &&& forall|k: IpView| #[trigger]
            self.per_ip@.dom().contains(k) ==> 1 <= self.per_ip@[k] <= MAX_UNAUTH_PER_IP
    }

    /// Nobody.
    pub fn new() -> (r: Unauth)
        ensures
            r.wf(),
            r.global == 0,
            r.per_ip@ == Map::<IpView, usize>::empty(),
    {
        Unauth { global: 0, per_ip: Table::new() }
    }

    /// Takes a place for a client, where there is one; the result is the address it is counted by.
    pub fn enter(&mut self, ip: IpAddr) -> (r: Option<IpAddr>)
        requires
            old(self).wf(),
        ensures
            final(self).wf(),
            match r {
                Some(k) => k@ == limit_key(ip@) && has_place(old(self).global, old(self).per_ip@, k@)
                    && final(self).global == old(self).global + 1 && final(self).per_ip@ == place_taken(
                    old(self).per_ip@,
                    k@,
                ),
                None => !has_place(old(self).global, old(self).per_ip@, limit_key(ip@)) && final(self).global
                    == old(self).global && final(self).per_ip == old(self).per_ip,
            },
    {
        if self.global >= MAX_UNAUTH {
            return None;
        }
        let key: IpAddr = rate_limit_key(ip);
        let n: usize = match self.per_ip.get(&key) {
            Some(n) => *n,
            None => 0,
        };
        if n >= MAX_UNAUTH_PER_IP {
            return None;
        }
        self.global = self.global + 1;
        self.per_ip.insert(key, n + 1);
        Some(key)
    }

    /// Gives a place back.
    pub fn release(&mut self, key: IpAddr)
        requires
            old(self).wf(),
            old(self).global > 0,
        ensures
            final(self).wf(),
            final(self).global == old(self).global - 1,
            final(self).per_ip@ == place_given(old(self).per_ip@, key@),
    {
        self.global = self.global - 1;
        let n: usize = match self.per_ip.get(&key) {
            Some(n) => *n,
            None => {
                return;
            },
        };
        if n <= 1 {
            let _ = self.per_ip.remove(&key);
        } else {
            self.per_ip.insert(key, n - 1);
        }
    }
}

/// Giving back the place that a client took restores the counts.
pub proof fn law_place_restored(m: Map<IpView, usize>, key: IpView)
    requires
        m.dom().contains(key) ==> 1 <= m[key] < MAX_UNAUTH_PER_IP,
    ensures
        place_given(place_taken(m, key), key) == m,
{
    if m.dom().contains(key) {
        assert(place_taken(m, key).insert(key, m[key]) =~= m);
    } else {
        assert(place_taken(m, key).remove(key) =~= m);
    }
}

/// All addresses of one version 6 network share their places.
pub proof fn law_network_shared(a: Seq<u8>, b: Seq<u8>)
    requires
        a.len() == 16,
        b.len() == 16,
        a.take(8) == b.take(8),
    ensures
        limit_key(IpView::V6(a)) == limit_key(IpView::V6(b)),
{
    assert forall|i: int| 0 <= i < 8 implies a[i] == b[i] by {
        assert(a.take(8)[i] == a[i] && b.take(8)[i] == b[i]);
    }
    assert(limit_key(IpView::V6(a)) =~= limit_key(IpView::V6(b)));
}

/// How long the answer to a client waits so that it takes as long as the camouflage site's would: the
/// round trip time to the site, varied by a quarter either way. `jitter` runs from zero to fifty.
pub fn answer_delay_us(rtt_us: u64, jitter: u64) -> (r: u64)
    requires
        jitter <= 50,
    ensures
        r == (if rtt_us * (75 + jitter) > u64::MAX {
            u64::MAX as int
        } else {
            rtt_us * (75 + jitter)
        }) / 100,
{
    match rtt_us.checked_mul(75 + jitter) {
        Some(x) => x / 100,
        None => u64::MAX / 100,
    }
}

/// The first message of the server: its protocol version and its clock.
pub open spec fn clock_frame(version: u8, now: u64) -> Seq<u8> {
    seq![1u8, version] + be64(now)
}

/// The first message of the server.
pub fn time_frame(version: u8, now: u64) -> (r: Vec<u8>)
    ensures
        r@ == clock_frame(version, now),
{
    let mut out: Vec<u8> = Vec::new();
    out.push(1);
    out.push(version);
    push_u64(&mut out, now);
    assert(out@ =~= clock_frame(version, now));
    out
}

/// A client reads the server's clock off the server's first message.
pub proof fn law_clock_read_back(now: u64)
    ensures
        time_sync(clock_frame(1, now)) == Some(now),
{
    let b = clock_frame(1, now);
    assert(b.subrange(2, 10) =~= be64(now));
    lemma_be64_at(now, b, 2);
}

/// How far the exchange before a client's request has come.
#[derive(Clone, Copy, PartialEq, Eq, Structural, Debug)]
pub enum ControlStage {
    /// Nothing received.
    First,
    /// A cipher has been agreed on.
    Agreed,
    /// The client has named its version.
    Known,
}

/// What an authenticated client asks for.
#[verifier::ext_equal]
pub enum RequestView {
    /// Datagrams.
    Udp,
    /// Datagrams of several sessions.
    Mux,
    /// A stream to a target, and what the client sent for it already.
    Tcp(Seq<char>, Seq<u8>),
    /// Datagrams, which the outlet refuses.
    Refused,
    /// Nothing that makes sense.
    Malformed,
}

/// What an authenticated client asks for.
pub enum Request {
    Udp,
    Mux,
    Tcp(String, Vec<u8>),
    Refused,
    Malformed,
}

impl View for Request {
    type V = RequestView;

    open spec fn view(&self) -> RequestView {
        match *self {
            Request::Udp => RequestView::Udp,
            Request::Mux => RequestView::Mux,
            Request::Tcp(t, p) => RequestView::Tcp(t@, p@),
            Request::Refused => RequestView::Refused,
            Request::Malformed => RequestView::Malformed,
        }
    }
}

/// What a message asks for.
pub open spec fn request_of(chunk: Seq<u8>, block_udp: bool) -> RequestView {
    if chunk.len() == 1 && (chunk[0] == 0 || chunk[0] == MUX_SENTINEL) {
        if block_udp {
            RequestView::Refused
        } else if chunk[0] == 0 {
            RequestView::Udp
        } else {
            RequestView::Mux
        }
    } else if chunk.len() >= 2 && chunk.len() >= 2 + u16_at(chunk, 0) {
        match utf8_text(chunk.subrange(2, 2 + u16_at(chunk, 0))) {
            None => RequestView::Malformed,
            Some(t) => RequestView::Tcp(t, chunk.skip(2 + u16_at(chunk, 0))),
        }
    } else {
        RequestView::Malformed
    }
}

/// Reads what a message asks for.
pub fn read_request(chunk: &[u8], block_udp: bool) -> (r: Request)
    ensures
        r@ == request_of(chunk@, block_udp),
{
    if chunk.len() == 1 && (chunk[0] == 0 || chunk[0] == MUX_SENTINEL) {
        if block_udp {
            return Request::Refused;
        }
        if chunk[0] == 0 {
            return Request::Udp;
        }
        return Request::Mux;
    }
    if chunk.len() < 2 {
        return Request::Malformed;
    }
    let n: usize = read_u16(chunk, 0) as usize;
    if chunk.len() < 2 + n {
        return Request::Malformed;
    }
    let name: Vec<u8> = copy_range(chunk, 2, 2 + n);
    match utf8_string(name.as_slice()) {
        None => Request::Malformed,
        Some(t) => {
            let payload: Vec<u8> = copy_range(chunk, 2 + n, chunk.len());
            assert(payload@ =~= chunk@.skip(2 + n));
            Request::Tcp(t, payload)
        },
    }
}

/// A client's request for a target arrives as it was framed, and so does what was sent with it.
pub proof fn law_target_request(text: Seq<char>, payload: Seq<u8>, block_udp: bool)
    requires
        vstd::utf8::encode_utf8(text).len() <= 65535,
    ensures
        request_of(crate::address::target_header(text) + payload, block_udp) == RequestView::Tcp(text, payload),
{
    let h = crate::address::target_header(text);
    let e = vstd::utf8::encode_utf8(text);
    let b = h + payload;
    crate::address::law_target_roundtrip(text, payload);
    assert(b.subrange(0, 2) =~= crate::wire::be16(e.len() as u16));
    crate::wire::lemma_be16_at(e.len() as u16, b, 0);
    assert(b.subrange(2, 2 + u16_at(b, 0)) =~= e);
    assert(b.skip(2 + u16_at(b, 0)) =~= payload);
    vstd::utf8::encode_utf8_valid_utf8(text);
    vstd::utf8::encode_utf8_decode_utf8(text);
}

/// How far the exchange has come after a message, and whether the message is the request.
pub open spec fn control_after(stage: ControlStage, agility: bool, client_info: bool, offer: bool, version: bool) -> (
    ControlStage,
    bool,
) {
    if stage is First && agility && offer {
        (ControlStage::Agreed, false)
    } else if !(stage is Known) && client_info && version {
        (ControlStage::Known, false)
    } else {
        (stage, true)
    }
}

/// What is done with a message of an authenticated client.
pub enum ControlStep {
    /// Answer its offer of ciphers, and read on.
    AnswerOffer,
    /// Note its version, and read on.
    NoteVersion,
    /// Serve its request.
    Serve(Request),
}

/// The exchange before a client's request: whether ciphers can be agreed on, whether versions are
/// noted, and whether the outlet refuses datagrams.
pub struct Control {
    pub agility: bool,
    pub client_info: bool,
    pub block_udp: bool,
    pub stage: ControlStage,
}

impl Control {
    /// An exchange that has not begun.
    pub fn new(agility: bool, client_info: bool, block_udp: bool) -> (r: Control)
        ensures
            r == (Control { agility, client_info, block_udp, stage: ControlStage::First }),
    {
        Control { agility, client_info, block_udp, stage: ControlStage::First }
    }

    /// Takes in a message. `offer` says whether it offers ciphers, `version` whether it names the
    /// client's version. An offer counts in the first message only, a version in the first after it;
    /// anything else is the request.
    pub fn on_chunk(&mut self, chunk: &[u8], offer: bool, version: bool) -> (r: ControlStep)
        ensures
            final(self).agility == old(self).agility,
            final(self).client_info == old(self).client_info,
            final(self).block_udp == old(self).block_udp,
            if old(self).stage is First && old(self).agility && offer {
                r is AnswerOffer && final(self).stage is Agreed
            } else if !(old(self).stage is Known) && old(self).client_info && version {
                r is NoteVersion && final(self).stage is Known
            } else {
                (r matches ControlStep::Serve(q) && q@ == request_of(chunk@, old(self).block_udp))
                    && final(self).stage == old(self).stage
            },
            (final(self).stage, r is Serve) == control_after(
                old(self).stage,
                old(self).agility,
                old(self).client_info,
                offer,
                version,
            ),
    {
        let first: bool = match self.stage {
            ControlStage::First => true,
            _ => false,
        };
        let known: bool = match self.stage {
            ControlStage::Known => true,
            _ => false,
        };
        if first && self.agility && offer {
            self.stage = ControlStage::Agreed;
            return ControlStep::AnswerOffer;
        }
        if !known && self.client_info && version {
            self.stage = ControlStage::Known;
            return ControlStep::NoteVersion;
        }
        ControlStep::Serve(read_request(chunk, self.block_udp))
    }
}

/// A host without the square brackets at its ends, however many there are.
pub open spec fn trim_brackets(s: Seq<char>) -> Seq<char>
    decreases s.len(),
{
    if s.len() > 0 && (s[0] == '[' || s[0] == ']') {
        trim_brackets(s.drop_first())
    } else if s.len() > 0 && (s.last() == '[' || s.last() == ']') {
        trim_brackets(s.drop_last())
    } else {
        s
    }
}

/// The host and the port of a target inside a tunnel.
pub open spec fn tunnel_target(t: Seq<char>) -> Option<(Seq<char>, u16)> {
    let i = last_index(t, ':');
    if i < 0 {
        None
    } else {
        match uint_text(t.skip(i + 1), 65535) {
            None => None,
            Some(p) => Some((trim_brackets(t.take(i)), p as u16)),
        }
    }
}

/// The host and the port of a target inside a tunnel.
pub fn split_tunnel_target(target: &str) -> (r: Option<(String, u16)>)
    ensures
        match r {
            Some(x) => tunnel_target(target@) == Some((x.0@, x.1)),
            None => tunnel_target(target@) is None,
        },
{
    let t: Vec<char> = chars_of(target);
    proof {
        lemma_last_index_bounds(target@, ':');
    }
    match rfind_char(t.as_slice(), ':') {
        None => None,
        Some(i) => {
            let digits: Vec<char> = copy_chars(t.as_slice(), i + 1, t.len());
            assert(digits@ =~= target@.skip(i + 1));
            match parse_uint(digits.as_slice(), 65535) {
                None => None,
                Some(p) => {
                    let ghost host = target@.take(i as int);
                    let mut a: usize = 0;
                    let mut z: usize = i;
                    assert(target@.subrange(0, i as int) =~= host);
                    while a < z && (t[a] == '[' || t[a] == ']')
                        invariant
                            a <= z,
                            z == i,
                            i < t@.len(),
                            t@ == target@,
                            host == target@.take(i as int),
                            trim_brackets(host) == trim_brackets(target@.subrange(a as int, z as int)),
                        decreases z - a,
                    {
                        assert(target@.subrange(a as int, z as int).drop_first() =~= target@.subrange(a + 1, z as int));
                        a = a + 1;
                    }
                    while a < z && (t[z - 1] == '[' || t[z - 1] == ']')
                        invariant
                            a <= z <= i,
                            i < t@.len(),
                            t@ == target@,
                            a < z ==> !(t@[a as int] == '[' || t@[a as int] == ']'),
                            trim_brackets(host) == trim_brackets(target@.subrange(a as int, z as int)),
                        decreases z - a,
                    {
                        assert(target@.subrange(a as int, z as int).drop_last() =~= target@.subrange(a as int, z - 1));
                        z = z - 1;
                    }
                    let h: Vec<char> = copy_chars(t.as_slice(), a, z);
                    assert(h@ == trim_brackets(host));
                    Some((string_of(h.as_slice()), p as u16))
                },
            }
        },
    }
}

/// How a client's stream goes on.
#[derive(Clone, Copy, PartialEq, Eq, Structural, Debug)]
pub enum StreamExit {
    Direct,
    Shadowsocks,
    Wireguard,
}

/// How a client's stream goes on: through the outlet where there is one.
pub fn stream_exit(up: &Option<UpstreamOutlet>) -> (r: StreamExit)
    ensures
        r == match *up {
            None => StreamExit::Direct,
            Some(UpstreamOutlet::Shadowsocks(_)) => StreamExit::Shadowsocks,
            Some(UpstreamOutlet::Wireguard(_)) => StreamExit::Wireguard,
        },
{
    match up {
        None => StreamExit::Direct,
        Some(UpstreamOutlet::Shadowsocks(_)) => StreamExit::Shadowsocks,
        Some(UpstreamOutlet::Wireguard(_)) => StreamExit::Wireguard,
    }
}

/// How a client's datagrams go on.
#[derive(Clone, Copy, PartialEq, Eq, Structural, Debug)]
pub enum UdpEgress {
    Direct,
    Wireguard,
}

/// How a client's datagrams go on: through a WireGuard outlet that is told so, else from the server.
pub fn udp_egress(up: &Option<UpstreamOutlet>) -> (r: UdpEgress)
    ensures
        r == match *up {
            Some(UpstreamOutlet::Wireguard(wg)) => if wg.udp is Tunnel {
                UdpEgress::Wireguard
            } else {
                UdpEgress::Direct
            },
            _ => UdpEgress::Direct,
        },
{
    match up {
        Some(UpstreamOutlet::Wireguard(wg)) => {
            match wg.udp {
                UdpPolicy::Tunnel => UdpEgress::Wireguard,
                _ => UdpEgress::Direct,
            }
        },
        _ => UdpEgress::Direct,
    }
}

/// The socket that both directions of a relay may close, but only once.
pub struct StopOnce {
    pub fd: i32,
}

impl StopOnce {
    /// The socket, the first time it is asked for.
    pub fn take(&mut self) -> (r: Option<i32>)
        ensures
            r == (if old(self).fd >= 0 {
                Some(old(self).fd)
            } else {
                None
            }),
            final(self).fd == -1,
    {
        let fd: i32 = self.fd;
        self.fd = -1;
        if fd >= 0 {
            Some(fd)
        } else {
            None
        }
    }
}

/// The message that carries a datagram to a client: a length prefix, the address it came from, and
/// its payload.
pub fn reply_packet(from: &SocketAddr, payload: &[u8]) -> (r: Vec<u8>)
    ensures
        r@ == framed(addr_bytes(from@) + payload@),
{
    let mut body: Vec<u8> = Vec::new();
    push_addr(&mut body, from);
    push_bytes(&mut body, payload);
    assert(body@ =~= addr_bytes(from@) + payload@);
    frame_body(body.as_slice())
}

/// The datagrams that whole frames ask for, in order; malformed frames ask for none.
pub open spec fn datagrams(frames: Seq<Seq<u8>>) -> Seq<Datagram>
    decreases frames.len(),
{
    if frames.len() == 0 {
        seq![]
    } else {
        match datagram_of(frames.last()) {
            Some(d) => datagrams(frames.drop_last()).push(d),
            None => datagrams(frames.drop_last()),
        }
    }
}

/// Datagrams as values.
pub open spec fn outgoing_views(v: Seq<Outgoing>) -> Seq<Datagram> {
    Seq::new(v.len(), |i: int| v[i]@)
}

/// Adds what came from a client to `acc`, and takes out the datagrams that it asks for.
pub fn take_datagrams(acc: &mut Vec<u8>, chunk: &[u8]) -> (r: Vec<Outgoing>)
    ensures
        outgoing_views(r@) == datagrams(frames_in(old(acc)@ + chunk@)),
        final(acc)@ == rest_of(old(acc)@ + chunk@),
{
    push_bytes(acc, chunk);
    let ghost all = acc@;
    let frames: Vec<Vec<u8>> = take_frames(acc);
    let ghost fs = frames_in(all);
    let mut out: Vec<Outgoing> = Vec::new();
    let mut i: usize = 0;
    assert(fs.take(0) =~= seq![]);
    assert(outgoing_views(out@) =~= seq![]);
    while i < frames.len()
        invariant
            i <= frames@.len(),
            frames@.len() == fs.len(),
            forall|k: int| 0 <= k < frames@.len() ==> (#[trigger] frames@[k])@ == fs[k],
            outgoing_views(out@) == datagrams(fs.take(i as int)),
        decreases frames@.len() - i,
    {
        proof {
            assert(fs.take(i + 1).drop_last() =~= fs.take(i as int));
            assert(fs.take(i + 1).last() == frames@[i as int]@);
        }
        let ghost before = out@;
        match decode_body(frames[i].as_slice()) {
            Some(d) => {
                let ghost dv = d@;
                out.push(d);
                assert(outgoing_views(out@) =~= outgoing_views(before).push(dv));
            },
            None => {},
        }
        i = i + 1;
    }
    assert(fs.take(i as int) =~= fs);
    out
}

/// The longest target that a stream may name.
pub const MAX_STREAM_TARGET: usize = 512;

/// The length of the target that a stream names; `None` where it names none or too long a one.
pub fn stream_target_len(head: &[u8; 2]) -> (r: Option<usize>)
    ensures
        match r {
            Some(n) => n == u16_at(head@, 0) && 0 < n <= MAX_STREAM_TARGET,
            None => u16_at(head@, 0) == 0 || u16_at(head@, 0) > MAX_STREAM_TARGET,
        },
{
    let n: usize = read_u16(head.as_slice(), 0) as usize;
    if n == 0 || n > MAX_STREAM_TARGET {
        None
    } else {
        Some(n)
    }
}

/// The length of a record stands in the last two bytes of its head, the first of them counting two
/// hundred and fifty-six; it must be from one to sixteen thousand three hundred and eighty-four.
pub proof fn law_record_length(head: Seq<u8>)
    requires
        head.len() == 5,
    ensures
        1 <= 256 * head[3] + head[4] <= 16384 ==> record_body(head) == Some(256 * head[3] + head[4]),
        256 * head[3] + head[4] == 0 || 256 * head[3] + head[4] > 16384 ==> record_body(head) is None,
{
}

/// A client hello with a session of thirty-two bytes gives that session and its random bytes, whatever
/// else is in it.
pub proof fn law_hello_read(len: Seq<u8>, version: Seq<u8>, random: Seq<u8>, session: Seq<u8>, rest: Seq<u8>)
    requires
        len.len() == 3,
        version.len() == 2,
        random.len() == 32,
        session.len() == 32,
    ensures
        hello_fields(22, seq![1u8] + len + version + random + seq![32u8] + session + rest) == Some((session, random)),
{
    let b = seq![1u8] + len + version + random + seq![32u8] + session + rest;
    assert(b.subrange(39, 71) =~= session);
    assert(b.subrange(6, 38) =~= random);
}

/// Nothing else counts as one: another kind of record or of message, one that is cut off, and one with
/// a session of another length.
pub proof fn law_no_hello(kind: u8, body: Seq<u8>)
    requires
        kind != 22 || body.len() < 71 || body[0] != 1 || body[38] != 32,
    ensures
        hello_fields(kind, body) is None,
{
}

/// Two clients are counted together exactly where they have the same address of version 4, or addresses
/// of version 6 with the same first eight bytes.
pub proof fn law_counted_together(a: IpView, b: IpView)
    requires
        match a {
            IpView::V4(o) => o.len() == 4,
            IpView::V6(o) => o.len() == 16,
        },
        match b {
            IpView::V4(o) => o.len() == 4,
            IpView::V6(o) => o.len() == 16,
        },
    ensures
        limit_key(a) == limit_key(b) <==> match (a, b) {
            (IpView::V4(x), IpView::V4(y)) => x == y,
            (IpView::V6(x), IpView::V6(y)) => x.take(8) == y.take(8),
            _ => false,
        },
{
    match (a, b) {
        (IpView::V6(x), IpView::V6(y)) => {
            let p = limit_key(a)->V6_0;
            let q = limit_key(b)->V6_0;
            if p == q {
                assert forall|i: int| 0 <= i < 8 implies x[i] == y[i] by {
                    assert(p[i] == x[i] && q[i] == y[i]);
                }
                assert(x.take(8) =~= y.take(8));
            }
            if x.take(8) == y.take(8) {
                law_network_shared(x, y);
            }
        },
        _ => {},
    }
}

/// There are five thousand places in all and a hundred for each address. Taking one counts one more for
/// the address that takes it, giving one back one less, and no other address notices either.
pub proof fn law_places_counted(global: usize, m: Map<IpView, usize>, key: IpView, other: IpView)
    requires
        forall|k: IpView| #[trigger] m.dom().contains(k) ==> 1 <= m[k] <= 100,
    ensures
        ({
            let n = if m.dom().contains(key) {
                m[key]
            } else {
                0
            };
            let t = place_taken(m, key);
            let g = place_given(m, key);
            &&& has_place(global, m, key) <==> global < 5000 && n < 100
            &&& t.dom().contains(key) && t[key] == n + 1
            &&& n > 1 ==> g.dom().contains(key) && g[key] == n - 1
            &&& n <= 1 ==> !g.dom().contains(key)
            &&& other != key ==> (t.dom().contains(other) <==> m.dom().contains(other)) && (g.dom().contains(other)
                <==> m.dom().contains(other))
            &&& other != key && m.dom().contains(other) ==> t[other] == m[other] && g[other] == m[other]
        }),
{
}

/// A single zero byte asks for datagrams, a single one for datagrams of several sessions; an outlet that
/// refuses datagrams refuses both.
pub proof fn law_datagrams_asked_for(b: u8, block_udp: bool)
    ensures
        request_of(seq![b], block_udp) == match b {
            0 => if block_udp {
                RequestView::Refused
            } else {
                RequestView::Udp
            },
            1 => if block_udp {
                RequestView::Refused
            } else {
                RequestView::Mux
            },
            _ => RequestView::Malformed,
        },
{
}

/// A message that is shorter than the target it announces, or whose target is no text, asks for nothing.
pub proof fn law_malformed_request(chunk: Seq<u8>, block_udp: bool)
    ensures
        chunk.len() == 0 ==> request_of(chunk, block_udp) is Malformed,
        chunk.len() >= 2 && chunk.len() < 2 + 256 * chunk[0] + chunk[1] ==> request_of(chunk, block_udp) is Malformed,
        chunk.len() >= 2 + 256 * chunk[0] + chunk[1] && chunk.len() >= 2 && !vstd::utf8::valid_utf8(
            chunk.subrange(2, 2 + 256 * chunk[0] + chunk[1]),
        ) ==> request_of(chunk, block_udp) is Malformed,
{
}

proof fn lemma_brackets_off(a: Seq<char>, h: Seq<char>, z: Seq<char>)
    requires
        forall|i: int| 0 <= i < a.len() ==> #[trigger] a[i] == '[' || a[i] == ']',
        forall|i: int| 0 <= i < z.len() ==> #[trigger] z[i] == '[' || z[i] == ']',
        h.len() > 0,
        h[0] != '[' && h[0] != ']',
        h.last() != '[' && h.last() != ']',
    ensures
        trim_brackets(a + h + z) == h,
    decreases a.len() + z.len(),
{
    let s = a + h + z;
    if a.len() > 0 {
        assert(s[0] == a[0]);
        assert(s.drop_first() =~= a.drop_first() + h + z);
        lemma_brackets_off(a.drop_first(), h, z);
    } else if z.len() > 0 {
        assert(s[0] == h[0]);
        assert(s.last() == z.last());
        assert(s.drop_last() =~= a + h + z.drop_last());
        lemma_brackets_off(a, h, z.drop_last());
    } else {
        assert(s =~= h);
    }
}

/// A target inside a tunnel is a host and a port behind the last colon; square brackets around the host
/// are taken off.
pub proof fn law_tunnel_target(a: Seq<char>, host: Seq<char>, z: Seq<char>, port: u16)
    requires
        forall|i: int| 0 <= i < a.len() ==> #[trigger] a[i] == '[' || a[i] == ']',
        forall|i: int| 0 <= i < z.len() ==> #[trigger] z[i] == '[' || z[i] == ']',
        host.len() > 0,
        host[0] != '[' && host[0] != ']',
        host.last() != '[' && host.last() != ']',
    ensures
        tunnel_target(a + host + z + seq![':'] + decimal(port as nat)) == Some((host, port)),
{
    lemma_colon_port(a + host + z, port as nat);
    law_decimal_roundtrip(port as nat, 65535);
    lemma_brackets_off(a, host, z);
}

/// Without a colon, or without a number up to 65535 behind the last one, there is no such target.
pub proof fn law_no_tunnel_target(a: Seq<char>, b: Seq<char>)
    requires
        !b.contains(':'),
    ensures
        tunnel_target(b) is None,
        uint_text(b, 65535) is None ==> tunnel_target(a + seq![':'] + b) is None,
{
    lemma_last_index_bounds(b, ':');
    if last_index(b, ':') >= 0 {
        assert(b.contains(b[last_index(b, ':')]));
    }
    let t = a + seq![':'] + b;
    let n = a.len() as int;
    assert forall|j: int| n < j < t.len() implies t[j] != ':' by {
        assert(t[j] == b[j - n - 1]);
        assert(b.contains(b[j - n - 1]));
    }
    crate::seqs::lemma_last_index_is(t, ':', n);
    assert(t.skip(n + 1) =~= b);
}

/// The datagrams of frames are those of each, in order: a malformed frame leaves no gap and stops
/// nothing.
pub proof fn law_datagrams_in_order(a: Seq<Seq<u8>>, f: Seq<u8>, b: Seq<Seq<u8>>)
    ensures
        datagram_of(f) matches Some(d) ==> datagrams(a + seq![f] + b) == datagrams(a) + seq![d] + datagrams(b),
        datagram_of(f) is None ==> datagrams(a + seq![f] + b) == datagrams(a) + datagrams(b),
    decreases b.len(),
{
    let s = a + seq![f] + b;
    if b.len() == 0 {
        assert(s.drop_last() =~= a);
        assert(s.last() == f);
        assert(datagrams(a) + datagrams(b) =~= datagrams(a));
        match datagram_of(f) {
            Some(d) => {
                assert(datagrams(a).push(d) =~= datagrams(a) + seq![d] + datagrams(b));
            },
            None => {},
        }
    } else {
        law_datagrams_in_order(a, f, b.drop_last());
        assert(s.drop_last() =~= a + seq![f] + b.drop_last());
        assert(s.last() == b.last());
        let x = datagrams(b.drop_last());
        match (datagram_of(f), datagram_of(b.last())) {
            (Some(d), Some(e)) => {
                assert((datagrams(a) + seq![d] + x).push(e) =~= datagrams(a) + seq![d] + x.push(e));
            },
            (None, Some(e)) => {
                assert((datagrams(a) + x).push(e) =~= datagrams(a) + x.push(e));
            },
            _ => {},
        }
    }
}

/// A message is the request unless it makes the exchange go on: by an offer where ciphers can be agreed on
/// and nothing came before, or by the client's version where versions are noted and none was. The exchange
/// never goes back, and after the version comes the request.
pub proof fn law_exchange_goes_on(stage: ControlStage, agility: bool, client_info: bool, offer: bool, version: bool)
    ensures
        ({
            let x = control_after(stage, agility, client_info, offer, version);
            let noted = client_info && version && stage != ControlStage::Known;
            &&& x.0 == stage <==> x.1
            &&& stage is Known ==> x.1
            &&& stage is Agreed ==> (x.1 <==> !noted) && !(x.0 is First)
            &&& stage is First ==> (x.1 <==> !noted && !(agility && offer))
            &&& stage is First && agility && offer ==> x.0 is Agreed
            &&& noted && !(stage is First && agility && offer) ==> x.0 is Known
        }),
{
}

/// The address by which clients of version 6 are counted is that of their network: its first eight bytes are
/// theirs, and the others are zero. One of version 4 is its own.
pub proof fn law_counted_by_network(o: Seq<u8>, i: int)
    requires
        o.len() == 16,
        0 <= i < 16,
    ensures
        limit_key(IpView::V6(o)) matches IpView::V6(k) && k.len() == 16 && k[i] == if i < 8 {
            o[i]
        } else {
            0
        },
        limit_key(IpView::V4(o.take(4))) == IpView::V4(o.take(4)),
        limit_key(limit_key(IpView::V6(o))) == limit_key(IpView::V6(o)),
{
    let k = limit_key(IpView::V6(o))->V6_0;
    assert(limit_key(IpView::V6(k))->V6_0 =~= k);
}

/// A target may have an empty host.
pub proof fn law_empty_host(port: u16)
    ensures
        tunnel_target(seq![':'] + decimal(port as nat)) == Some((Seq::<char>::empty(), port)),
{
    let e = Seq::<char>::empty();
    crate::text::lemma_colon_port(e, port as nat);
    crate::text::law_decimal_roundtrip(port as nat, 65535);
    assert(e + seq![':'] + decimal(port as nat) =~= seq![':'] + decimal(port as nat));
}

} // verus!
