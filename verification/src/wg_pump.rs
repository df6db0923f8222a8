//! What a WireGuard peer makes of datagrams and packets: datagrams go to the network and come from it,
//! packets wait in the queues of a device.

use vstd::prelude::*;

use crate::transparent_udp::byte_views;
use crate::wg::{build_tunn, tunn_view, PeerSeed, TunnView, WgConfig, MAX_DATAGRAM, WG_DATA_OVERHEAD};
use crate::wg_device::{queued, WgDevice};

verus! {

/// What the state of a peer gives out.
pub enum TunnOutput {
    /// A datagram for the network.
    Network(Vec<u8>),
    /// A packet from the tunnel.
    Packet(Vec<u8>),
    /// Nothing, or an error that concerns nobody else.
    Nothing,
}

impl TunnOutput {
    /// It is no longer than a datagram may be.
    pub open spec fn fits(self) -> bool {
        match self {
            TunnOutput::Network(p) => p@.len() <= MAX_DATAGRAM,
            TunnOutput::Packet(p) => p@.len() <= MAX_DATAGRAM,
            TunnOutput::Nothing => true,
        }
    }
}

/// A first message of a handshake: type 1, and 148 bytes long.
pub open spec fn is_initiation(q: Seq<u8>) -> bool {
    q.len() == 148 && q[0] == 1
}

/// A datagram with a sealed packet of `n` bytes: type 4, and longer by the overhead.
pub open spec fn is_data(q: Seq<u8>, n: nat) -> bool {
    q.len() == n + WG_DATA_OVERHEAD && q[0] == 4
}

/// A datagram answers another one: the first message of a handshake is answered by the second one, of
/// type 2 and 92 bytes long, and that by an empty packet.
pub open spec fn answers(datagram: Seq<u8>, q: Seq<u8>) -> bool {
    ||| is_initiation(datagram) && q.len() == 92 && q[0] == 2
    ||| datagram.len() == 92 && datagram[0] == 2 && is_data(q, 0)
}

/// What is given out for the network.
pub open spec fn for_network(o: TunnOutput) -> Option<Seq<u8>> {
    match o {
        TunnOutput::Network(p) => Some(p@),
        _ => None,
    }
}

/// What is given out for the IP stack.
pub open spec fn for_stack(o: TunnOutput) -> Option<Seq<u8>> {
    match o {
        TunnOutput::Packet(p) => Some(p@),
        _ => None,
    }
}

/// A peer that was made from `seed` can, with some sessions, at some time and with some random bytes,
/// open this datagram so that this is given out for the network and this for the IP stack.
pub uninterp spec fn tunn_may_open(
    seed: PeerSeed,
    datagram: Seq<u8>,
    network: Option<Seq<u8>>,
    packet: Option<Seq<u8>>,
) -> bool;

/// A peer that was made from `seed` can, with some sessions, at some time and with some random bytes,
/// seal this packet so that this is given out for the network.
pub uninterp spec fn tunn_may_seal(seed: PeerSeed, packet: Seq<u8>, network: Option<Seq<u8>>) -> bool;

/// A peer that was made from `seed` can, with some sessions, at some time and with some random bytes,
/// give out this for the network when its timers run.
pub uninterp spec fn tunn_may_tick(seed: PeerSeed, network: Option<Seq<u8>>) -> bool;

/// The form of what a datagram can lead to. A packet is shorter than the datagram of type 4 that it
/// came in; an empty datagram asks for what has been queued.
pub open spec fn opened_form(datagram: Seq<u8>, o: TunnOutput) -> bool {
    &&& o.fits()
    &&& for_stack(o) matches Some(p) ==> p.len() + WG_DATA_OVERHEAD <= datagram.len() && datagram[0] == 4
    &&& for_network(o) matches Some(q) ==> if datagram.len() == 0 {
        is_initiation(q) || (q.len() >= WG_DATA_OVERHEAD && q[0] == 4)
    } else {
        answers(datagram, q)
    }
}

/// What is given out is one of the things that a datagram can lead to.
pub open spec fn opened(seed: PeerSeed, datagram: Seq<u8>, o: TunnOutput) -> bool {
    tunn_may_open(seed, datagram, for_network(o), for_stack(o)) && opened_form(datagram, o)
}

/// The form of what a packet can lead to: itself, sealed, or the first message of a handshake, or
/// nothing while a handshake is under way.
pub open spec fn sealed_form(packet: Seq<u8>, out: Option<Seq<u8>>) -> bool {
    out matches Some(q) ==> is_data(q, packet.len()) || is_initiation(q)
}

/// What is given out for the network is one of the things that a packet can lead to.
pub open spec fn sealed(seed: PeerSeed, packet: Seq<u8>, out: Option<Seq<u8>>) -> bool {
    tunn_may_seal(seed, packet, out) && sealed_form(packet, out)
}

/// Calls `Tunn::decapsulate` of `boringtun` without a source address, with a buffer for the largest
/// datagram. What it gives out depends on keys, counters, chance and the clock: claimed is that it
/// stands in `tunn_may_open` to the datagram, its type and length, and that it fits the buffer, as do
/// packets that were queued by `tunn_seal`. What the state was made from stays. An empty datagram gives
/// out one that waits as long as any is left, and then nothing.
#[verifier::external_body]
fn tunn_open(t: &mut boringtun::noise::Tunn, datagram: &[u8]) -> (r: TunnOutput)
    requires
        datagram@.len() <= MAX_DATAGRAM,
    ensures
        tunn_may_open(tunn_view(*old(t)).seed, datagram@, for_network(r), for_stack(r)),
        opened_form(datagram@, r),
        tunn_view(*final(t)).seed == tunn_view(*old(t)).seed,
        datagram@.len() == 0 ==> (r is Network <==> tunn_view(*old(t)).left > 0),
        datagram@.len() == 0 && r is Network ==> tunn_view(*final(t)).left == tunn_view(*old(t)).left - 1,
        datagram@.len() == 0 && !(r is Network) ==> tunn_view(*final(t)).left == 0,
{
    let mut buf: Vec<u8> = vec![0u8; MAX_DATAGRAM];
    match t.decapsulate(None, datagram, &mut buf) {
        boringtun::noise::TunnResult::WriteToNetwork(p) => TunnOutput::Network(p.to_vec()),
        boringtun::noise::TunnResult::WriteToTunnelV4(p, _) => TunnOutput::Packet(p.to_vec()),
        boringtun::noise::TunnResult::WriteToTunnelV6(p, _) => TunnOutput::Packet(p.to_vec()),
        boringtun::noise::TunnResult::Err(_) => TunnOutput::Nothing,
        boringtun::noise::TunnResult::Done => TunnOutput::Nothing,
    }
}

/// Calls `Tunn::encapsulate` of `boringtun` with a buffer for the largest datagram. It fails on a packet
/// that does not fit with what is added to it, so such a packet is left out. What it gives out depends
/// on keys, counters, chance and the clock: claimed is that it stands in `tunn_may_seal` to the packet,
/// its type and length, and that a fresh state begins with a handshake. What the state was made from
/// stays.
#[verifier::external_body]
fn tunn_seal(t: &mut boringtun::noise::Tunn, packet: &[u8]) -> (r: TunnOutput)
    requires
        packet@.len() + WG_DATA_OVERHEAD <= MAX_DATAGRAM,
    ensures
        tunn_may_seal(tunn_view(*old(t)).seed, packet@, for_network(r)),
        sealed_form(packet@, for_network(r)),
        !(r is Packet),
        tunn_view(*final(t)).seed == tunn_view(*old(t)).seed,
        tunn_view(*old(t)).fresh ==> (for_network(r) matches Some(q) && is_initiation(q)),
{
    let mut buf: Vec<u8> = vec![0u8; MAX_DATAGRAM];
    match t.encapsulate(packet, &mut buf) {
        boringtun::noise::TunnResult::WriteToNetwork(p) => TunnOutput::Network(p.to_vec()),
        boringtun::noise::TunnResult::WriteToTunnelV4(p, _) => TunnOutput::Packet(p.to_vec()),
        boringtun::noise::TunnResult::WriteToTunnelV6(p, _) => TunnOutput::Packet(p.to_vec()),
        boringtun::noise::TunnResult::Err(_) => TunnOutput::Nothing,
        boringtun::noise::TunnResult::Done => TunnOutput::Nothing,
    }
}

/// Calls `Tunn::update_timers` of `boringtun` with a buffer for the largest datagram. What it gives out
/// depends on the state and the clock: claimed is that it stands in `tunn_may_tick`, that it is an empty
/// packet or begins a handshake, and that a fresh state gives out nothing but a handshake and is fresh
/// until it does. What the state was made from stays.
#[verifier::external_body]
fn tunn_timers(t: &mut boringtun::noise::Tunn) -> (r: TunnOutput)
    ensures
        tunn_may_tick(tunn_view(*old(t)).seed, for_network(r)),
        for_network(r) matches Some(q) ==> is_initiation(q) || (is_data(q, 0) && !tunn_view(*old(t)).fresh),
        tunn_view(*final(t)).seed == tunn_view(*old(t)).seed,
        tunn_view(*old(t)).fresh && for_network(r) is None ==> tunn_view(*final(t)).fresh,
{
    let mut buf: Vec<u8> = vec![0u8; MAX_DATAGRAM];
    match t.update_timers(&mut buf) {
        boringtun::noise::TunnResult::WriteToNetwork(p) => TunnOutput::Network(p.to_vec()),
        boringtun::noise::TunnResult::WriteToTunnelV4(p, _) => TunnOutput::Packet(p.to_vec()),
        boringtun::noise::TunnResult::WriteToTunnelV6(p, _) => TunnOutput::Packet(p.to_vec()),
        boringtun::noise::TunnResult::Err(_) => TunnOutput::Nothing,
        boringtun::noise::TunnResult::Done => TunnOutput::Nothing,
    }
}

/// A datagram as a value.
pub open spec fn opt_bytes(r: Option<Vec<u8>>) -> Option<Seq<u8>> {
    match r {
        Some(p) => Some(p@),
        None => None,
    }
}

/// What is given out for the network; anything else goes nowhere.
pub fn answer_of(o: TunnOutput) -> (r: Option<Vec<u8>>)
    ensures
        opt_bytes(r) == for_network(o),
{
    match o {
        TunnOutput::Network(p) => Some(p),
        _ => None,
    }
}

/// The packets that came in after something was given out: a packet joins them, and nothing else does.
pub open spec fn rx_after(rx: Seq<Vec<u8>>, o: TunnOutput) -> Seq<Vec<u8>> {
    match o {
        TunnOutput::Packet(p) => queued(rx, p),
        _ => rx,
    }
}

/// Puts away what was given out for a datagram: a packet is queued for the IP stack, a datagram is to
/// be sent.
pub fn settle(d: &mut WgDevice, o: TunnOutput) -> (r: Option<Vec<u8>>)
    requires
        old(d).wf(),
    ensures
        final(d).wf(),
        final(d).rx@ == rx_after(old(d).rx@, o),
        final(d).tx == old(d).tx,
        final(d).mtu == old(d).mtu,
        opt_bytes(r) == for_network(o),
{
    match o {
        TunnOutput::Packet(p) => {
            d.push_rx(p);
            None
        },
        other => answer_of(other),
    }
}

/// What became of a packet that goes out.
pub enum Sealed {
    /// There was none.
    Empty,
    /// This datagram is to be sent.
    Datagram(Vec<u8>),
    /// It waits for the handshake, or was dropped.
    Held,
}

impl Sealed {
    /// The datagram that is to be sent.
    pub open spec fn datagram(self) -> Option<Seq<u8>> {
        match self {
            Sealed::Datagram(p) => Some(p@),
            _ => None,
        }
    }
}

/// All packets that go out fit a datagram.
pub open spec fn all_fit(tx: Seq<Vec<u8>>) -> bool {
    forall|i: int| 0 <= i < tx.len() ==> (#[trigger] tx[i])@.len() + WG_DATA_OVERHEAD <= MAX_DATAGRAM
}

/// The handshake and cipher state of a peer. Only packets that fit a datagram ever get into it.
pub struct PeerState {
    tunn: boringtun::noise::Tunn,
}

/// What was given out, in order.
pub open spec fn sent(outs: Seq<Option<Seq<u8>>>) -> Seq<Seq<u8>>
    decreases outs.len(),
{
    if outs.len() == 0 {
        seq![]
    } else {
        match outs.last() {
            Some(q) => sent(outs.drop_last()).push(q),
            None => sent(outs.drop_last()),
        }
    }
}

/// Each packet led to what stands at its place.
pub open spec fn all_sealed(seed: PeerSeed, tx: Seq<Vec<u8>>, outs: Seq<Option<Seq<u8>>>) -> bool {
    &&& outs.len() == tx.len()
    &&& forall|i: int| 0 <= i < tx.len() ==> sealed(seed, (#[trigger] tx[i])@, outs[i])
}

/// What is to be sent for a datagram that was opened: nothing, or an answer and all that waited for it.
pub open spec fn flushed(seed: PeerSeed, o: TunnOutput, r: Seq<Seq<u8>>) -> bool {
    match for_network(o) {
        None => r.len() == 0,
        Some(q) => r.len() > 0 && r[0] == q && forall|i: int|
            0 < i < r.len() ==> tunn_may_open(seed, seq![], Some(#[trigger] r[i]), None),
    }
}

impl PeerState {
    /// What is said of the state.
    pub closed spec fn state(&self) -> TunnView {
        tunn_view(self.tunn)
    }

    /// The state of a peer before the handshake, for the given session index.
    pub fn new(cfg: &WgConfig, index: u32) -> (r: PeerState)
        ensures
            r.state().seed == cfg.seed(index),
            r.state().fresh,
            r.state().left == 0,
    {
        PeerState { tunn: build_tunn(cfg, index) }
    }

    /// Takes in a datagram of the network. A packet in it is queued; an answer is to be sent, and then
    /// `more` is to be called until there is nothing more.
    pub fn take_in(&mut self, d: &mut WgDevice, datagram: &[u8]) -> (r: Option<Vec<u8>>)
        requires
            old(d).wf(),
            datagram@.len() <= MAX_DATAGRAM,
        ensures
            final(self).state().seed == old(self).state().seed,
            final(d).wf(),
            final(d).tx == old(d).tx,
            final(d).mtu == old(d).mtu,
            exists|o: TunnOutput| #[trigger]
                opened(old(self).state().seed, datagram@, o) && final(d).rx@ == rx_after(old(d).rx@, o) && opt_bytes(r)
                    == for_network(o),
    {
        let o: TunnOutput = tunn_open(&mut self.tunn, datagram);
        let ghost given = o;
        let r: Option<Vec<u8>> = settle(d, o);
        assert(opened(old(self).state().seed, datagram@, given));
        r
    }

    /// The next datagram that waits to be sent after an answer, if any is left.
    pub fn more(&mut self) -> (r: Option<Vec<u8>>)
        ensures
            final(self).state().seed == old(self).state().seed,
            r is Some <==> old(self).state().left > 0,
            match r {
                Some(p) => final(self).state().left == old(self).state().left - 1 && p@.len() <= MAX_DATAGRAM
                    && tunn_may_open(old(self).state().seed, seq![], Some(p@), None),
                None => final(self).state().left == 0,
            },
    {
        let none: Vec<u8> = Vec::new();
        assert(none@ =~= seq![]);
        answer_of(tunn_open(&mut self.tunn, none.as_slice()))
    }

    /// Takes in a datagram of the network. A packet in it is queued; the answer to it, and all that waited
    /// for that, is to be sent.
    pub fn take_all(&mut self, d: &mut WgDevice, datagram: &[u8]) -> (r: Vec<Vec<u8>>)
        requires
            old(d).wf(),
            datagram@.len() <= MAX_DATAGRAM,
        ensures
            final(self).state().seed == old(self).state().seed,
            r@.len() > 0 ==> final(self).state().left == 0,
            final(d).wf(),
            final(d).tx == old(d).tx,
            final(d).mtu == old(d).mtu,
            exists|o: TunnOutput| #[trigger]
                opened(old(self).state().seed, datagram@, o) && final(d).rx@ == rx_after(old(d).rx@, o) && flushed(
                    old(self).state().seed,
                    o,
                    byte_views(r@),
                ),
    {
        let ghost seed = self.state().seed;
        let mut out: Vec<Vec<u8>> = Vec::new();
        match self.take_in(d, datagram) {
            None => {
                assert(byte_views(out@).len() == 0);
                out
            },
            Some(p) => {
                let ghost o = choose|o: TunnOutput| #[trigger]
                    opened(seed, datagram@, o) && d.rx@ == rx_after(old(d).rx@, o) && for_network(o) == Some(p@);
                let ghost first = p@;
                out.push(p);
                loop
                    invariant
                        self.state().seed == seed,
                        out@.len() > 0,
                        out@[0]@ == first,
                        forall|i: int|
                            0 < i < out@.len() ==> tunn_may_open(seed, seq![], Some((#[trigger] out@[i])@), None),
                    ensures
                        self.state().left == 0,
                    decreases self.state().left,
                {
                    match self.more() {
                        Some(q) => {
                            out.push(q);
                        },
                        None => {
                            break;
                        },
                    }
                }
                assert(flushed(seed, o, byte_views(out@)));
                out
            },
        }
    }

    /// Takes the oldest packet that goes out and seals it.
    pub fn seal_next(&mut self, d: &mut WgDevice) -> (r: Sealed)
        requires
            old(d).wf(),
            all_fit(old(d).tx@),
        ensures
            final(self).state().seed == old(self).state().seed,
            final(d).wf(),
            all_fit(final(d).tx@),
            final(d).rx == old(d).rx,
            final(d).mtu == old(d).mtu,
            if old(d).tx@.len() == 0 {
                r is Empty && final(d).tx@ == old(d).tx@ && final(self).state() == old(self).state()
            } else {
                !(r is Empty) && final(d).tx@ == old(d).tx@.drop_first() && sealed(
                    old(self).state().seed,
                    old(d).tx@[0]@,
                    r.datagram(),
                )
            },
            old(d).tx@.len() > 0 && old(self).state().fresh ==> (r.datagram() matches Some(q) && is_initiation(q)),
    {
        match d.pop_tx() {
            None => Sealed::Empty,
            Some(p) => {
                assert(p == old(d).tx@[0]);
                match answer_of(tunn_seal(&mut self.tunn, p.as_slice())) {
                    Some(q) => Sealed::Datagram(q),
                    None => Sealed::Held,
                }
            },
        }
    }

    /// Seals all packets that go out, oldest first: the datagrams that are to be sent.
    pub fn seal_all(&mut self, d: &mut WgDevice) -> (r: Vec<Vec<u8>>)
        requires
            old(d).wf(),
            all_fit(old(d).tx@),
        ensures
            final(self).state().seed == old(self).state().seed,
            final(d).wf(),
            final(d).tx@.len() == 0,
            final(d).rx == old(d).rx,
            final(d).mtu == old(d).mtu,
            exists|outs: Seq<Option<Seq<u8>>>| #[trigger]
                all_sealed(old(self).state().seed, old(d).tx@, outs) && byte_views(r@) == sent(outs),
            old(d).tx@.len() > 0 && old(self).state().fresh ==> r@.len() > 0 && is_initiation(r@[0]@),
    {
        let ghost seed = self.state().seed;
        let ghost fresh = self.state().fresh;
        let ghost all = d.tx@;
        let ghost mut outs: Seq<Option<Seq<u8>>> = seq![];
        let mut out: Vec<Vec<u8>> = Vec::new();
        assert(byte_views(out@) =~= sent(outs));
        assert(all.skip(0) =~= all);
        loop
            invariant
                d.wf(),
                all_fit(d.tx@),
                d.rx == old(d).rx,
                d.mtu == old(d).mtu,
                self.state().seed == seed,
                outs.len() <= all.len(),
                d.tx@ == all.skip(outs.len() as int),
                forall|i: int| 0 <= i < outs.len() ==> sealed(seed, (#[trigger] all[i])@, outs[i]),
                byte_views(out@) == sent(outs),
                outs.len() == 0 ==> self.state().fresh == fresh,
                outs.len() > 0 && fresh ==> out@.len() > 0 && is_initiation(out@[0]@),
            ensures
                d.tx@.len() == 0,
            decreases d.tx@.len(),
        {
            let ghost before = out@;
            let ghost outs0 = outs;
            match self.seal_next(d) {
                Sealed::Empty => {
                    break;
                },
                Sealed::Datagram(q) => {
                    let ghost qv = q@;
                    out.push(q);
                    proof {
                        outs = outs.push(Some(qv));
                        assert(outs.drop_last() =~= outs0);
                        assert(byte_views(out@) =~= byte_views(before).push(qv));
                    }
                },
                Sealed::Held => {
                    proof {
                        outs = outs.push(None);
                        assert(outs.drop_last() =~= outs0);
                    }
                },
            }
            assert(all.skip(outs0.len() as int).drop_first() =~= all.skip(outs.len() as int));
        }
        assert(all_sealed(seed, all, outs));
        out
    }

    /// Lets the timers run: handshakes are retried, keys renewed and keepalives sent.
    pub fn tick(&mut self) -> (r: Option<Vec<u8>>)
        ensures
            final(self).state().seed == old(self).state().seed,
            tunn_may_tick(old(self).state().seed, opt_bytes(r)),
            r matches Some(p) ==> is_initiation(p@) || (is_data(p@, 0) && !old(self).state().fresh),
            old(self).state().fresh && r is None ==> final(self).state().fresh,
    {
        answer_of(tunn_timers(&mut self.tunn))
    }
}

/// What is given out is sent in its order; where nothing was given out nothing is sent, and nothing is held
/// up by that.
pub proof fn law_sent_in_order(a: Seq<Option<Seq<u8>>>, q: Seq<u8>, b: Seq<Option<Seq<u8>>>)
    ensures
        sent(a + seq![Some(q)] + b) == sent(a) + seq![q] + sent(b),
        sent(a + seq![None::<Seq<u8>>] + b) == sent(a) + sent(b),
    decreases b.len(),
{
    let s = a + seq![Some(q)] + b;
    let t = a + seq![None::<Seq<u8>>] + b;
    if b.len() == 0 {
        assert(s.drop_last() =~= a);
        assert(t.drop_last() =~= a);
        assert(sent(a).push(q) =~= sent(a) + seq![q] + sent(b));
        assert(sent(a) + sent(b) =~= sent(a));
    } else {
        law_sent_in_order(a, q, b.drop_last());
        assert(s.drop_last() =~= a + seq![Some(q)] + b.drop_last());
        assert(t.drop_last() =~= a + seq![None::<Seq<u8>>] + b.drop_last());
        let x = sent(b.drop_last());
        match b.last() {
            Some(p) => {
                assert((sent(a) + seq![q] + x).push(p) =~= sent(a) + seq![q] + x.push(p));
                assert((sent(a) + x).push(p) =~= sent(a) + x.push(p));
            },
            None => {},
        }
    }
}

/// A packet is for the IP stack and never for the network, a datagram for the network and never for the IP
/// stack.
pub proof fn law_outputs_apart(p: Vec<u8>, rx: Seq<Vec<u8>>)
    ensures
        for_network(TunnOutput::Network(p)) == Some(p@) && for_stack(TunnOutput::Network(p)) is None,
        for_stack(TunnOutput::Packet(p)) == Some(p@) && for_network(TunnOutput::Packet(p)) is None,
        for_network(TunnOutput::Nothing) is None && for_stack(TunnOutput::Nothing) is None,
        rx_after(rx, TunnOutput::Network(p)) == rx && rx_after(rx, TunnOutput::Nothing) == rx,
        rx.len() < 256 ==> rx_after(rx, TunnOutput::Packet(p)) == rx.push(p),
{
}

/// Every packet leads to something at its own place, so that no more datagrams are sent than there were
/// packets, and packets sealed in several turns lead to what they would lead to in one.
pub proof fn law_each_sealed(
    seed: PeerSeed,
    a: Seq<Vec<u8>>,
    b: Seq<Vec<u8>>,
    x: Seq<Option<Seq<u8>>>,
    y: Seq<Option<Seq<u8>>>,
)
    requires
        all_sealed(seed, a, x),
        all_sealed(seed, b, y),
    ensures
        all_sealed(seed, a + b, x + y),
        sent(x).len() <= a.len(),
        forall|i: int| 0 <= i < a.len() ==> sealed(seed, (#[trigger] a[i])@, x[i]),
{
    lemma_sent_len(x);
    assert forall|i: int| 0 <= i < (a + b).len() implies sealed(seed, (#[trigger] (a + b)[i])@, (x + y)[i]) by {
        if i >= a.len() {
            assert((a + b)[i] == b[i - a.len()]);
        }
    }
}

proof fn lemma_sent_len(x: Seq<Option<Seq<u8>>>)
    ensures
        sent(x).len() <= x.len(),
    decreases x.len(),
{
    if x.len() > 0 {
        lemma_sent_len(x.drop_last());
    }
}

} // verus!
