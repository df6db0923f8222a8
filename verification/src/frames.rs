//! Length-prefixed datagram frames: two bytes of length, an address, a port and a payload.
//!
//! The address is one byte of type and then 4 octets (type 1), 16 octets (type 4), or one byte of
//! length and a name (type 3).

use vstd::prelude::*;
use vstd::slice::slice_subrange;

use crate::ip::{ip_format, ip_string, IpAddr, IpView, SocketAddr, SocketView};
use crate::text::{lossy_text, utf8_lossy};
use crate::wire::{
    be16, copy_16, copy_range, lemma_be16_at, push_bytes, push_u16, read_u16, u16_at,
};

verus! {

/// Address type of four octets.
pub const ATYP_V4: u8 = 1;

/// Address type of a name.
pub const ATYP_NAME: u8 = 3;

/// Address type of sixteen octets.
pub const ATYP_V6: u8 = 4;

/// The size of the first frame in `buf` with its length prefix; `None` while it is incomplete.
pub open spec fn first_frame(buf: Seq<u8>) -> Option<int> {
    if buf.len() < 2 || buf.len() < 2 + u16_at(buf, 0) {
        None
    } else {
        Some(2 + u16_at(buf, 0))
    }
}

/// The size of the first frame with its length prefix.
pub fn frame_total(buf: &[u8]) -> (r: Option<usize>)
    ensures
        match r {
            Some(n) => first_frame(buf@) == Some(n as int) && 2 <= n <= buf@.len(),
            None => first_frame(buf@) is None,
        },
{
    if buf.len() < 2 {
        return None;
    }
    let n: usize = 2 + read_u16(buf, 0) as usize;
    if buf.len() < n {
        None
    } else {
        Some(n)
    }
}

/// Where the payload of a frame body starts, going by the address type and the name length alone;
/// `None` for an unknown type or a missing name length.
pub open spec fn payload_start(body: Seq<u8>) -> Option<int> {
    if body.len() == 0 {
        None
    } else if body[0] == ATYP_V4 {
        Some(7)
    } else if body[0] == ATYP_V6 {
        Some(19)
    } else if body[0] == ATYP_NAME && body.len() >= 2 {
        Some(4 + body[1])
    } else {
        None
    }
}

/// The payload of a frame body; nothing where the address is malformed or cut off.
pub open spec fn payload_of(body: Seq<u8>) -> Seq<u8> {
    match payload_start(body) {
        Some(n) if n <= body.len() => body.skip(n),
        _ => seq![],
    }
}

/// The payload of a frame body.
pub fn frame_payload(body: &[u8]) -> (r: Vec<u8>)
    ensures
        r@ == payload_of(body@),
{
    let none: Vec<u8> = Vec::new();
    assert(none@ =~= seq![]);
    if body.len() == 0 {
        return none;
    }
    let off: usize = match body[0] {
        1 => 7,
        4 => 19,
        3 => {
            if body.len() < 2 {
                return none;
            }
            4 + body[1] as usize
        },
        _ => {
            return none;
        },
    };
    if off > body.len() {
        return none;
    }
    assert(body@.skip(off as int) =~= body@.subrange(off as int, body@.len() as int));
    copy_range(body, off, body.len())
}

/// What a frame body asks to be sent: host text, port and payload.
#[verifier::ext_equal]
pub struct Datagram {
    pub host: Seq<char>,
    pub port: u16,
    pub payload: Seq<u8>,
}

/// The host that the address of a frame body stands for. A name need not be valid UTF-8: malformed
/// parts are replaced.
pub open spec fn host_of(body: Seq<u8>) -> Seq<char> {
    if body[0] == ATYP_V4 {
        ip_format(IpView::V4(body.subrange(1, 5)))
    } else if body[0] == ATYP_V6 {
        ip_format(IpView::V6(body.subrange(1, 17)))
    } else {
        lossy_text(body.subrange(2, 2 + body[1]))
    }
}

/// What a frame body asks to be sent; `None` where its address is malformed or cut off.
pub open spec fn datagram_of(body: Seq<u8>) -> Option<Datagram> {
    match payload_start(body) {
        Some(n) if n <= body.len() => Some(
            Datagram { host: host_of(body), port: u16_at(body, n - 2) as u16, payload: body.skip(n) },
        ),
        _ => None,
    }
}

/// A datagram to be sent.
pub struct Outgoing {
    pub host: String,
    pub port: u16,
    pub payload: Vec<u8>,
}

impl View for Outgoing {
    type V = Datagram;

    open spec fn view(&self) -> Datagram {
        Datagram { host: self.host@, port: self.port, payload: self.payload@ }
    }
}

/// An optional datagram as an optional model.
pub open spec fn opt_datagram(r: Option<Outgoing>) -> Option<Datagram> {
    match r {
        Some(d) => Some(d@),
        None => None,
    }
}

/// Decodes a frame body.
pub fn decode_body(body: &[u8]) -> (r: Option<Outgoing>)
    ensures
        opt_datagram(r) == datagram_of(body@),
{
    if body.len() == 0 {
        return None;
    }
    let mut off: usize = 1;
    let host: String = match body[0] {
        1 => {
            if body.len() < 5 {
                return None;
            }
            let o: [u8; 4] = [body[1], body[2], body[3], body[4]];
            assert(o@ =~= body@.subrange(1, 5));
            off = 5;
            ip_string(&IpAddr::V4(o))
        },
        3 => {
            if body.len() < 2 {
                return None;
            }
            let n: usize = body[1] as usize;
            if body.len() < 2 + n {
                return None;
            }
            off = 2 + n;
            utf8_lossy(slice_subrange(body, 2, 2 + n))
        },
        4 => {
            if body.len() < 17 {
                return None;
            }
            let o: [u8; 16] = copy_16(body, 1);
            off = 17;
            ip_string(&IpAddr::V6(o))
        },
        _ => {
            return None;
        },
    };
    if body.len() < off + 2 {
        return None;
    }
    let port: u16 = read_u16(body, off);
    let payload: Vec<u8> = copy_range(body, off + 2, body.len());
    assert(payload@ =~= body@.skip(off + 2));
    Some(Outgoing { host, port, payload })
}

/// The encoded address: type, octets and port.
pub open spec fn addr_bytes(a: SocketView) -> Seq<u8> {
    match a {
        SocketView::V4(o, p) => seq![ATYP_V4] + o + be16(p),
        SocketView::V6(o, p, _) => seq![ATYP_V6] + o + be16(p),
    }
}

/// Appends an encoded address.
pub fn push_addr(out: &mut Vec<u8>, a: &SocketAddr)
    ensures
        final(out)@ == old(out)@ + addr_bytes(a@),
{
    match a {
        SocketAddr::V4(o, p) => {
            out.push(ATYP_V4);
            push_bytes(out, o.as_slice());
            push_u16(out, *p);
        },
        SocketAddr::V6(o, p, _) => {
            out.push(ATYP_V6);
            push_bytes(out, o.as_slice());
            push_u16(out, *p);
        },
    }
    assert(out@ =~= old(out)@ + addr_bytes(a@));
}

/// The encoded name: type, length, bytes and port.
pub open spec fn name_bytes(name: Seq<u8>, port: u16) -> Seq<u8> {
    seq![ATYP_NAME, name.len() as u8] + name + be16(port)
}

/// The low sixteen bits of a length.
pub fn low16(n: usize) -> (r: u16)
    ensures
        r == n % 65536,
{
    (n % 65536) as u16
}

/// A length prefix and a body; the prefix holds the low sixteen bits of the length.
pub open spec fn framed(body: Seq<u8>) -> Seq<u8> {
    be16((body.len() % 65536) as u16) + body
}

/// Puts a length prefix before a body.
pub fn frame_body(body: &[u8]) -> (r: Vec<u8>)
    ensures
        r@ == framed(body@),
{
    let mut out: Vec<u8> = Vec::new();
    push_u16(&mut out, low16(body.len()));
    push_bytes(&mut out, body);
    assert(out@ =~= framed(body@));
    out
}

/// A frame of a body that fits is complete whatever follows it, and gives the body back.
pub proof fn law_framed_first(body: Seq<u8>, rest: Seq<u8>)
    requires
        body.len() <= 65535,
    ensures
        first_frame(framed(body) + rest) == Some((2 + body.len()) as int),
        (framed(body) + rest).subrange(2, 2 + body.len() as int) == body,
        (framed(body) + rest).skip(2 + body.len() as int) == rest,
{
    let s = framed(body) + rest;
    assert(s.subrange(0, 2) =~= be16(body.len() as u16));
    lemma_be16_at(body.len() as u16, s, 0);
    assert(s.subrange(2, 2 + body.len() as int) =~= body);
    assert(s.skip(2 + body.len() as int) =~= rest);
}

/// A body made of an encoded address and a payload decodes to that address and payload.
pub proof fn law_addr_body(a: SocketView, payload: Seq<u8>)
    requires
        match a {
            SocketView::V4(o, _) => o.len() == 4,
            SocketView::V6(o, _, _) => o.len() == 16,
        },
    ensures
        datagram_of(addr_bytes(a) + payload) == Some(
            Datagram { host: ip_format(a.ip()), port: a.port(), payload },
        ),
        payload_of(addr_bytes(a) + payload) == payload,
{
    let b = addr_bytes(a) + payload;
    match a {
        SocketView::V4(o, p) => {
            assert(b.subrange(1, 5) =~= o);
            assert(b.subrange(5, 7) =~= be16(p));
            lemma_be16_at(p, b, 5);
            assert(b.skip(7) =~= payload);
        },
        SocketView::V6(o, p, _) => {
            assert(b.subrange(1, 17) =~= o);
            assert(b.subrange(17, 19) =~= be16(p));
            lemma_be16_at(p, b, 17);
            assert(b.skip(19) =~= payload);
        },
    }
}

/// A body made of an encoded name and a payload decodes to that name and payload.
pub proof fn law_name_body(name: Seq<u8>, port: u16, payload: Seq<u8>)
    requires
        name.len() <= 255,
    ensures
        datagram_of(name_bytes(name, port) + payload) == Some(
            Datagram { host: lossy_text(name), port, payload },
        ),
        payload_of(name_bytes(name, port) + payload) == payload,
{
    let b = name_bytes(name, port) + payload;
    let n = name.len() as int;
    assert(b.subrange(2, 2 + n) =~= name);
    assert(b.subrange(2 + n, 4 + n) =~= be16(port));
    lemma_be16_at(port, b, 2 + n);
    assert(b.skip(4 + n) =~= payload);
}

/// Bytes `n` on, without the first `n`.
pub fn drop_front(b: &[u8], n: usize) -> (r: Vec<u8>)
    requires
        n <= b@.len(),
    ensures
        r@ == b@.skip(n as int),
{
    let r: Vec<u8> = copy_range(b, n, b.len());
    assert(r@ =~= b@.skip(n as int));
    r
}

/// The bodies of the complete frames at the front of `buf`, in order.
pub open spec fn frames_in(buf: Seq<u8>) -> Seq<Seq<u8>>
    decreases buf.len(),
{
    match first_frame(buf) {
        Some(n) => seq![buf.subrange(2, n)] + frames_in(buf.skip(n)),
        None => seq![],
    }
}

/// What is left of `buf` behind its complete frames.
pub open spec fn rest_of(buf: Seq<u8>) -> Seq<u8>
    decreases buf.len(),
{
    match first_frame(buf) {
        Some(n) => rest_of(buf.skip(n)),
        None => buf,
    }
}

/// Takes the complete frames off the front of an accumulated stream.
pub fn take_frames(acc: &mut Vec<u8>) -> (r: Vec<Vec<u8>>)
    ensures
        final(acc)@ == rest_of(old(acc)@),
        r@.len() == frames_in(old(acc)@).len(),
        forall|i: int| 0 <= i < r@.len() ==> (#[trigger] r@[i])@ == frames_in(old(acc)@)[i],
{
    let mut out: Vec<Vec<u8>> = Vec::new();
    let mut pos: usize = 0;
    let ghost all = acc@;
    assert(all.skip(0) =~= all);
    loop
        invariant_except_break
            all == old(acc)@,
            acc@ == all,
            pos <= all.len(),
            out@.len() + frames_in(all.skip(pos as int)).len() == frames_in(all).len(),
            rest_of(all.skip(pos as int)) == rest_of(all),
            forall|i: int| 0 <= i < out@.len() ==> (#[trigger] out@[i])@ == frames_in(all)[i],
            forall|i: int|
                0 <= i < frames_in(all.skip(pos as int)).len() ==> frames_in(all)[out@.len() + i]
                    == #[trigger] frames_in(all.skip(pos as int))[i],
        ensures
            all == old(acc)@,
            acc@ == all,
            pos <= all.len(),
            all.skip(pos as int) == rest_of(all),
            out@.len() == frames_in(all).len(),
            forall|i: int| 0 <= i < out@.len() ==> (#[trigger] out@[i])@ == frames_in(all)[i],
        decreases all.len() - pos,
    {
        let rest: &[u8] = slice_subrange(acc.as_slice(), pos, acc.len());
        assert(rest@ =~= all.skip(pos as int));
        let ghost here = frames_in(rest@);
        match frame_total(rest) {
            None => {
                assert(here.len() == 0);
                break;
            },
            Some(n) => {
                let body: Vec<u8> = copy_range(rest, 2, n);
                proof {
                    let tail = frames_in(rest@.skip(n as int));
                    assert(rest@.skip(n as int) =~= all.skip(pos + n));
                    assert(here =~= seq![body@] + tail);
                    assert(here[0] == body@);
                    assert forall|i: int| 0 <= i < tail.len() implies frames_in(all)[out@.len() + 1 + i] == #[trigger] tail[i] by {
                        assert(here[i + 1] == tail[i]);
                    }
                }
                out.push(body);
                pos = pos + n;
            },
        }
    }
    let rest: Vec<u8> = drop_front(acc.as_slice(), pos);
    *acc = rest;
    out
}

/// Frames that were put one behind another come out one by one, in the same order, whatever
/// incomplete rest follows.
pub proof fn law_frames_in_order(body: Seq<u8>, rest: Seq<u8>)
    requires
        body.len() <= 65535,
    ensures
        frames_in(framed(body) + rest) == seq![body] + frames_in(rest),
        rest_of(framed(body) + rest) == rest_of(rest),
{
    law_framed_first(body, rest);
}

/// However a stream of frames is cut into chunks, the frames that come out are those of the whole
/// stream: what is left over after a chunk, followed by the next chunk, yields the frames that the
/// chunks yield together.
pub proof fn law_frames_chunking(a: Seq<u8>, b: Seq<u8>)
    ensures
        frames_in(a + b) == frames_in(a) + frames_in(rest_of(a) + b),
        rest_of(a + b) == rest_of(rest_of(a) + b),
    decreases a.len(),
{
    match first_frame(a) {
        None => {
            assert(frames_in(a) =~= seq![]);
            assert(frames_in(a) + frames_in(a + b) =~= frames_in(a + b));
        },
        Some(n) => {
            let s = a + b;
            assert(u16_at(s, 0) == u16_at(a, 0));
            assert(first_frame(s) == Some(n));
            assert(s.subrange(2, n) =~= a.subrange(2, n));
            assert(s.skip(n) =~= a.skip(n) + b);
            law_frames_chunking(a.skip(n), b);
            assert(frames_in(s) =~= frames_in(a) + frames_in(rest_of(a) + b));
        },
    }
}

/// A body that is empty, of an unknown type, or cut off before the end of its port asks for nothing and
/// holds no payload.
pub proof fn law_malformed_body(body: Seq<u8>)
    requires
        body.len() == 0 || (body[0] != 1 && body[0] != 3 && body[0] != 4) || (body[0] == 1 && body.len() < 7) || (body[0]
            == 4 && body.len() < 19) || (body[0] == 3 && (body.len() < 2 || body.len() < 4 + body[1])),
    ensures
        datagram_of(body) is None,
        payload_of(body).len() == 0,
{
}

/// A frame is complete exactly where as many bytes have come as its prefix says, its first byte counting two
/// hundred and fifty-six.
pub proof fn law_frame_complete(buf: Seq<u8>)
    ensures
        buf.len() < 2 ==> first_frame(buf) is None,
        buf.len() >= 2 && buf.len() < 2 + 256 * buf[0] + buf[1] ==> first_frame(buf) is None,
        buf.len() >= 2 && buf.len() >= 2 + 256 * buf[0] + buf[1] ==> first_frame(buf) == Some(2 + 256 * buf[0] + buf[1]),
{
}

} // verus!
