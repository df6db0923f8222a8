//! Tunnels as byte streams: messages in, bytes out, and when a tunnel that is kept ready is no longer
//! usable.

use vstd::prelude::*;
use vstd::utf8::encode_utf8;

use crate::chance::random_u64;
use crate::entry::REQUEST_TIMEOUT_SECS;
use crate::handler::mentions;
use crate::ip::{ipv4_format, socket_text, SocketView};
use crate::ip_laws::law_socket_roundtrip;
use crate::text::{decimal, push_decimal, push_text, string_of};
use crate::wire::{copy_range, find_bytes, found_at};

verus! {

/// What looking at an idle connection showed.
#[derive(Clone, Copy, PartialEq, Eq, Structural, Debug)]
pub enum IdleProbe {
    /// There is nothing to read.
    Nothing,
    /// There were bytes that nobody asked for.
    Data,
    /// The other side has closed it.
    Closed,
    /// It is broken.
    Broken,
}

/// Whether a tunnel that is kept ready is no longer usable: only one with nothing to read is.
pub fn is_stale(p: IdleProbe) -> (r: bool)
    ensures
        r == !(p is Nothing),
{
    match p {
        IdleProbe::Nothing => false,
        _ => true,
    }
}

/// The age that a tunnel may reach, in seconds: thirty and up to nineteen more, as `extra` says.
pub fn max_age_secs(extra: u64) -> (r: u64)
    requires
        extra < 20,
    ensures
        r == 30 + extra,
        30 <= r < 50,
{
    30 + extra
}

/// Draws the age that a tunnel may reach, in seconds. It is always thrown out before the server would
/// give up waiting for its request.
pub fn draw_max_age() -> (r: u64)
    ensures
        30 <= r < 50,
        r < REQUEST_TIMEOUT_SECS,
{
    max_age_secs(random_u64(0, 19))
}

/// Whether the failure to receive a message is the regular end of a tunnel.
pub open spec fn regular_end(message: Seq<char>) -> bool {
    mentions(encode_utf8(message), encode_utf8("close_notify"@))
}

/// What the failure to receive a message means: the end of the bytes, or an error with its text.
pub fn recv_err_to_eof_or_io(message: String) -> (r: Result<Vec<u8>, String>)
    ensures
        if regular_end(message@) {
            r matches Ok(v) && v@.len() == 0
        } else {
            r matches Err(m) && m == message
        },
{
    match find_bytes(message.as_str().as_bytes(), "close_notify".as_bytes()) {
        Some(i) => {
            assert(found_at(encode_utf8(message@), encode_utf8("close_notify"@), i as int));
            Ok(Vec::new())
        },
        None => Err(message),
    }
}

/// A message that is being read, and how much of it has been.
pub struct ReadBuffer {
    pub buf: Vec<u8>,
    pub pos: usize,
}

impl ReadBuffer {
    /// No more has been read than there is.
    pub open spec fn wf(&self) -> bool {
        self.pos <= self.buf@.len()
    }

    /// What has not been read yet.
    pub open spec fn rest(&self) -> Seq<u8> {
        self.buf@.skip(self.pos as int)
    }

    /// Nothing to read.
    pub fn new() -> (r: ReadBuffer)
        ensures
            r.wf(),
            r.rest().len() == 0,
    {
        ReadBuffer { buf: Vec::new(), pos: 0 }
    }

    /// Reads up to `room` bytes; `None` where the next message is needed first.
    pub fn read(&mut self, room: usize) -> (r: Option<Vec<u8>>)
        requires
            old(self).wf(),
        ensures
            final(self).wf(),
            match r {
                None => old(self).rest().len() == 0 && *final(self) == *old(self),
                Some(v) => ({
                    let n = if old(self).rest().len() < room {
                        old(self).rest().len() as int
                    } else {
                        room as int
                    };
                    old(self).rest().len() > 0 && v@ == old(self).rest().take(n) && final(self).rest() == old(
                        self,
                    ).rest().skip(n)
                }),
            },
    {
        if self.pos >= self.buf.len() {
            return None;
        }
        let left: usize = self.buf.len() - self.pos;
        let n: usize = if left < room {
            left
        } else {
            room
        };
        let out: Vec<u8> = copy_range(self.buf.as_slice(), self.pos, self.pos + n);
        assert(out@ =~= self.rest().take(n as int));
        self.pos = self.pos + n;
        assert(self.rest() =~= old(self).rest().skip(n as int));
        Some(out)
    }

    /// Takes in the next message. An empty one is the end of the bytes, which the result says.
    pub fn fill(&mut self, message: Vec<u8>) -> (r: bool)
        requires
            old(self).wf(),
            old(self).rest().len() == 0,
        ensures
            final(self).wf(),
            final(self).rest() == message@,
            r == (message@.len() == 0),
    {
        let end: bool = message.len() == 0;
        self.buf = message;
        self.pos = 0;
        assert(self.rest() =~= message@);
        end
    }
}

/// Bytes come out of a message in their order, and none is lost: what one read gives and what is left
/// make up what there was.
pub proof fn law_read_in_order(rest: Seq<u8>, n: int)
    requires
        0 <= n <= rest.len(),
    ensures
        rest.take(n) + rest.skip(n) == rest,
{
    assert(rest.take(n) + rest.skip(n) =~= rest);
}

/// The writing side of a tunnel.
#[derive(Clone, Copy, PartialEq, Eq, Structural, Debug)]
pub enum WriteState {
    Idle,
    Busy,
}

/// What a request to write comes to.
#[derive(Clone, Copy, PartialEq, Eq, Structural, Debug)]
pub enum WriteStep {
    /// The bytes are taken, and sent from now on.
    Taken(usize),
    /// Earlier bytes are still being sent.
    Wait,
    /// Sending earlier bytes failed.
    Failed,
}

/// What a request to write `n` bytes comes to.
pub open spec fn written(s: WriteState, earlier: Option<bool>, n: usize) -> (WriteState, WriteStep) {
    match (s, earlier) {
        (WriteState::Idle, _) => (WriteState::Busy, WriteStep::Taken(n)),
        (WriteState::Busy, None) => (WriteState::Busy, WriteStep::Wait),
        (WriteState::Busy, Some(true)) => (WriteState::Busy, WriteStep::Taken(n)),
        (WriteState::Busy, Some(false)) => (WriteState::Idle, WriteStep::Failed),
    }
}

/// Asks to write `n` bytes. `earlier` says how sending earlier bytes stands, where some are being sent:
/// `None` while it is not over, else whether it worked.
pub fn write_step(s: WriteState, earlier: Option<bool>, n: usize) -> (r: (WriteState, WriteStep))
    ensures
        r == written(s, earlier, n),
{
    match s {
        WriteState::Idle => (WriteState::Busy, WriteStep::Taken(n)),
        WriteState::Busy => {
            match earlier {
                None => (WriteState::Busy, WriteStep::Wait),
                Some(ok) => {
                    if ok {
                        (WriteState::Busy, WriteStep::Taken(n))
                    } else {
                        (WriteState::Idle, WriteStep::Failed)
                    }
                },
            }
        },
    }
}

/// The address of the proxy's own inbound.
pub open spec fn loopback_url(port: u16) -> Seq<char> {
    "socks5://127.0.0.1:"@ + decimal(port as nat)
}

/// The address of the proxy's own inbound.
pub fn internal_url(port: u16) -> (r: String)
    ensures
        r@ == loopback_url(port),
{
    let mut out: Vec<char> = Vec::new();
    push_text(&mut out, "socks5://127.0.0.1:");
    push_decimal(&mut out, port as u64);
    assert(out@ =~= loopback_url(port));
    string_of(out.as_slice())
}

/// A failure is the regular end of a tunnel exactly where its message speaks of the notice that ends one.
pub proof fn law_regular_end(a: Seq<char>, b: Seq<char>, m: Seq<char>)
    ensures
        regular_end(a + "close_notify"@ + b),
        (forall|i: int| !crate::wire::found_at(encode_utf8(m), encode_utf8("close_notify"@), i)) ==> !regular_end(m),
{
    let w = "close_notify"@;
    crate::text::lemma_encode_joined(a + w, b);
    crate::text::lemma_encode_joined(a, w);
    let t = encode_utf8(a) + encode_utf8(w) + encode_utf8(b);
    let i = encode_utf8(a).len() as int;
    assert(t.subrange(i, i + encode_utf8(w).len()) =~= encode_utf8(w));
    assert(crate::wire::found_at(t, encode_utf8(w), i));
}

/// The address of the proxy's own inbound is a SOCKS address on this machine, at this port.
pub proof fn law_own_inbound(port: u16)
    ensures
        loopback_url(port).take(9) == "socks5://"@,
        socket_text(loopback_url(port).skip(9)) == Some(SocketView::V4(seq![127u8, 0, 0, 1], port)),
{
    let o = seq![127u8, 0, 0, 1];
    reveal_strlit("socks5://127.0.0.1:");
    reveal_strlit("socks5://");
    reveal_with_fuel(decimal, 4);
    law_socket_roundtrip(SocketView::V4(o, port));
    assert(decimal(127) =~= seq!['1', '2', '7']);
    assert(decimal(0) =~= seq!['0']);
    assert(decimal(1) =~= seq!['1']);
    assert(loopback_url(port).skip(9) =~= ipv4_format(o) + seq![':'] + decimal(port as nat));
    assert(loopback_url(port).take(9) =~= "socks5://"@);
}

/// Bytes are taken all together, and exactly where nothing else is being sent: at first, and once the
/// earlier ones were sent. While those are being sent the request waits, and where sending them failed
/// it fails, after which the next is taken.
pub proof fn law_writes_one_by_one(s: WriteState, earlier: Option<bool>, n: usize, m: usize)
    ensures
        ({
            let r = written(s, earlier, n);
            &&& r.1 == WriteStep::Taken(n) <==> s is Idle || earlier == Some(true)
            &&& r.1 is Wait <==> s is Busy && earlier is None
            &&& r.1 is Failed <==> s is Busy && earlier == Some(false)
            &&& r.0 is Idle <==> r.1 is Failed
            &&& r.1 is Failed ==> written(r.0, None, m).1 == WriteStep::Taken(m)
            &&& r.1 is Taken ==> written(r.0, None, m).1 is Wait
        }),
{
}

} // verus!
