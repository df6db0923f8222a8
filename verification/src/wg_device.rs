//! The packet queues between the IP stack and a WireGuard tunnel.

use std::collections::VecDeque;
use vstd::prelude::*;

use crate::pool::newest;

verus! {

/// How many packets a queue holds.
pub const QUEUE_CAP: usize = 256;

/// The packets that came in and those that go out, oldest first.
pub struct WgDevice {
    pub rx: VecDeque<Vec<u8>>,
    pub tx: VecDeque<Vec<u8>>,
    pub mtu: usize,
}

/// A packet that came in.
pub struct WgRxToken(pub Vec<u8>);

/// The right to send one packet.
pub struct WgTxToken<'a>(pub &'a mut VecDeque<Vec<u8>>);

/// A queue of packets as a sequence with one more packet: where it is full, the oldest makes room.
pub open spec fn queued(q: Seq<Vec<u8>>, pkt: Vec<u8>) -> Seq<Vec<u8>> {
    newest(q.push(pkt), QUEUE_CAP as int)
}

fn enqueue(q: &mut VecDeque<Vec<u8>>, pkt: Vec<u8>)
    requires
        old(q)@.len() <= QUEUE_CAP,
    ensures
        final(q)@ == queued(old(q)@, pkt),
        final(q)@.len() <= QUEUE_CAP,
{
    if q.len() >= QUEUE_CAP {
        let _oldest: Option<Vec<u8>> = q.pop_front();
    }
    q.push_back(pkt);
    assert(q@ =~= queued(old(q)@, pkt));
}

impl WgRxToken {
    /// The packet.
    pub fn consume(self) -> (r: Vec<u8>)
        ensures
            r == self.0,
    {
        self.0
    }
}

impl<'a> WgTxToken<'a> {
    /// Queues a packet. A full queue drops its oldest packet.
    pub fn consume(self, pkt: Vec<u8>)
        requires
            old(self.0)@.len() <= QUEUE_CAP,
        ensures
            final(self.0)@ == queued(old(self.0)@, pkt),
            final(self.0)@.len() <= QUEUE_CAP,
    {
        enqueue(self.0, pkt);
    }
}

impl WgDevice {
    /// Neither queue is longer than allowed.
    pub open spec fn wf(&self) -> bool {
        self.rx@.len() <= QUEUE_CAP && self.tx@.len() <= QUEUE_CAP
    }

    /// Empty queues.
    pub fn new(mtu: usize) -> (r: WgDevice)
        ensures
            r.wf(),
            r.rx@.len() == 0,
            r.tx@.len() == 0,
            r.mtu == mtu,
    {
        WgDevice { rx: VecDeque::new(), tx: VecDeque::new(), mtu }
    }

    /// Queues a packet that came in. A full queue drops its oldest packet.
    pub fn push_rx(&mut self, pkt: Vec<u8>)
        requires
            old(self).wf(),
        ensures
            final(self).wf(),
            final(self).rx@ == queued(old(self).rx@, pkt),
            final(self).tx == old(self).tx,
            final(self).mtu == old(self).mtu,
    {
        enqueue(&mut self.rx, pkt);
    }

    /// Takes the oldest packet that goes out.
    pub fn pop_tx(&mut self) -> (r: Option<Vec<u8>>)
        requires
            old(self).wf(),
        ensures
            final(self).wf(),
            match r {
                Some(p) => old(self).tx@.len() > 0 && p == old(self).tx@[0] && final(self).tx@ == old(self).tx@.drop_first(),
                None => old(self).tx@.len() == 0 && final(self).tx@ == old(self).tx@,
            },
            final(self).rx == old(self).rx,
            final(self).mtu == old(self).mtu,
    {
        let r: Option<Vec<u8>> = self.tx.pop_front();
        assert(r is Some ==> self.tx@ =~= old(self).tx@.drop_first());
        r
    }

    /// Takes the oldest packet that came in.
    pub fn receive(&mut self) -> (r: Option<WgRxToken>)
        requires
            old(self).wf(),
        ensures
            final(self).wf(),
            match r {
                Some(t) => old(self).rx@.len() > 0 && t.0 == old(self).rx@[0] && final(self).rx@
                    == old(self).rx@.drop_first(),
                None => old(self).rx@.len() == 0 && final(self).rx@ == old(self).rx@,
            },
            final(self).tx == old(self).tx,
            final(self).mtu == old(self).mtu,
    {
        let p: Option<Vec<u8>> = self.rx.pop_front();
        assert(p is Some ==> self.rx@ =~= old(self).rx@.drop_first());
        match p {
            Some(v) => Some(WgRxToken(v)),
            None => None,
        }
    }

    /// The right to send one packet.
    pub fn transmit(&mut self) -> (r: WgTxToken<'_>)
        requires
            old(self).wf(),
        ensures
            r.0@ == old(self).tx@,
            final(self).tx@ == final(r.0)@,
            final(self).rx == old(self).rx,
            final(self).mtu == old(self).mtu,
    {
        WgTxToken(&mut self.tx)
    }
}

/// A queue that is not full delivers its packets in the order in which they came.
pub proof fn law_queue_fifo(q: Seq<Vec<u8>>, pkt: Vec<u8>)
    requires
        q.len() < QUEUE_CAP,
    ensures
        queued(q, pkt) == q.push(pkt),
{
}

/// A queue never grows beyond its bound, and what a full queue drops is its oldest packet.
pub proof fn law_queue_bounded(q: Seq<Vec<u8>>, pkt: Vec<u8>)
    requires
        q.len() <= QUEUE_CAP,
    ensures
        queued(q, pkt).len() <= QUEUE_CAP,
        queued(q, pkt).last() == pkt,
        q.len() == QUEUE_CAP ==> queued(q, pkt) == q.drop_first().push(pkt),
{
    if q.len() == QUEUE_CAP {
        assert(queued(q, pkt) =~= q.drop_first().push(pkt));
    }
}

/// A queue holds two hundred and fifty-six packets: up to then each new one joins the others, and from then
/// on the oldest makes room.
pub proof fn law_queue_holds(q: Seq<Vec<u8>>, pkt: Vec<u8>)
    requires
        q.len() <= 256,
    ensures
        q.len() < 256 ==> queued(q, pkt) == q.push(pkt),
        q.len() == 256 ==> queued(q, pkt) == q.skip(1).push(pkt),
{
    if q.len() > 0 {
        assert(q.push(pkt).skip(1) =~= q.skip(1).push(pkt));
    }
}

} // verus!
