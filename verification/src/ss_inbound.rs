//! Serving a Shadowsocks client: its request, and how its stream leaves.

use vstd::prelude::*;
use vstd::utf8::encode_utf8;

use crate::address::{address_format, address_text, frame_target, target_header, Address, AddressError, AddressView};
use crate::b64::base64_decoded;
use crate::ip::{opt_ip, IpAddr};
use crate::manager::OutboundManager;
use crate::outbound::{leaf, OutboundNode};
use crate::shadowsocks::{decode_ss2022_psk, psk_refused, SsError};
use crate::text::{opt_text, trimmed};
use crate::wire::copy_range;

verus! {

/// What a client asks for: its target, and what it sent for it already.
pub struct SsRequest {
    pub target: Address,
    pub initial: Vec<u8>,
}

/// Reads a client's request. `target` is the text of the address at the front of the first message, and
/// `head` how many bytes it takes there.
pub fn read_request(first: &[u8], target: &str, head: usize) -> (r: Result<SsRequest, AddressError>)
    requires
        head <= first@.len(),
    ensures
        match r {
            Ok(q) => address_text(target@) == Ok::<AddressView, AddressError>(q.target@) && q.initial@ == first@.skip(
                head as int,
            ),
            Err(e) => address_text(target@) == Err::<AddressView, AddressError>(e),
        },
{
    match Address::parse(target) {
        Err(e) => Err(e),
        Ok(a) => {
            let initial: Vec<u8> = copy_range(first, head, first.len());
            assert(initial@ =~= first@.skip(head as int));
            Ok(SsRequest { target: a, initial })
        },
    }
}

/// What the rules are applied to: the name or the address of a target, and its port.
pub fn stream_subject(a: &Address) -> (r: (Option<String>, Option<IpAddr>, u16))
    ensures
        match a@ {
            AddressView::Domain(h, p) => opt_text(r.0) == Some(h) && r.1 is None && r.2 == p,
            AddressView::Socket(s) => r.0 is None && opt_ip(r.1) == Some(s.ip()) && r.2 == s.port(),
        },
{
    match a {
        Address::Domain(h, p) => (Some(h.clone()), None, *p),
        Address::Socket(s) => (None, Some(s.ip()), s.port()),
    }
}

/// How a stream to a target is opened.
pub enum Opening {
    /// Directly.
    Direct,
    /// It is refused.
    Refused,
    /// Through a tunnel of the server at this place, with this first message.
    Tunnel(usize, Vec<u8>),
    /// The text of the target is longer than a message can say.
    TooLong(usize),
    /// Through the WireGuard peer at this place.
    Wireguard(usize),
    /// Through the Shadowsocks server at this place, over another outbound where one is given.
    Shadowsocks(usize, Option<usize>),
    /// The key of the Shadowsocks server is wrong.
    BadKey(SsError),
    /// The outbound is a group without a member to use.
    NoMember,
}

/// Whether the key of a server of the 2022 edition is one.
pub open spec fn key_right(n: OutboundNode) -> bool {
    match n {
        OutboundNode::Shadowsocks { server, .. } => server.method.edition_2022() ==> (base64_decoded(
            trimmed(server.password@),
        ) matches Ok(k) && k.len() == server.method.key_size()),
        _ => true,
    }
}

/// An opening is the one for a target through the outbound at place `l`.
pub open spec fn opens(r: Opening, n: OutboundNode, l: int, target: AddressView) -> bool {
    match n {
        OutboundNode::Direct { .. } => r is Direct,
        OutboundNode::Block { .. } => r is Refused,
        OutboundNode::Mirage { .. } => {
            let text = address_format(target);
            if encode_utf8(text).len() > 65535 {
                r matches Opening::TooLong(k) && k == encode_utf8(text).len()
            } else {
                r matches Opening::Tunnel(i, h) && i == l && h@ == target_header(text)
            }
        },
        OutboundNode::Wireguard { .. } => r matches Opening::Wireguard(i) && i == l,
        OutboundNode::Shadowsocks { server, underlying, .. } => if key_right(n) {
            r matches Opening::Shadowsocks(i, u) && i == l && u == underlying
        } else {
            r matches Opening::BadKey(e) && psk_refused(
                e,
                base64_decoded(trimmed(server.password@)),
                server.method.key_size(),
            )
        },
        _ => r is NoMember,
    }
}

/// Decides how a stream to a target is opened through an outbound.
pub fn open_stream(m: &mut OutboundManager, i: usize, target: &Address) -> (r: Opening)
    requires
        old(m).wf(),
        i < old(m).nodes@.len(),
    ensures
        final(m).wf(),
        final(m).nodes == old(m).nodes,
        final(m).index == old(m).index,
        ({
            let l = leaf(old(m).nodes@, old(m).groups@, i as int);
            final(m).groups@ == l.0 && opens(r, old(m).nodes@[l.1], l.1, target@)
        }),
{
    let l: usize = m.resolve_leaf(i);
    match &m.nodes[l] {
        OutboundNode::Direct { .. } => Opening::Direct,
        OutboundNode::Block { .. } => Opening::Refused,
        OutboundNode::Mirage { .. } => {
            let text: String = target.host_port();
            let n: usize = text.as_str().as_bytes().len();
            if n > 65535 {
                Opening::TooLong(n)
            } else {
                Opening::Tunnel(l, frame_target(text.as_str()))
            }
        },
        OutboundNode::Wireguard { .. } => Opening::Wireguard(l),
        OutboundNode::Shadowsocks { server, underlying, .. } => {
            if server.method.is_2022() {
                match decode_ss2022_psk(server.password.as_str(), server.method.key_len()) {
                    Ok(_) => {},
                    Err(e) => {
                        return Opening::BadKey(e);
                    },
                }
            }
            Opening::Shadowsocks(l, *underlying)
        },
        _ => Opening::NoMember,
    }
}

/// How a stream is opened is told by the outbound alone: directly, not at all, through a tunnel that is told
/// the target, through a peer, or through a Shadowsocks server over the outbound that carries it.
pub proof fn law_openings(r: Opening, n: OutboundNode, l: int, target: AddressView)
    requires
        opens(r, n, l, target),
    ensures
        r is Direct <==> n is Direct,
        r is Refused <==> n is Block,
        r is Tunnel || r is TooLong <==> n is Mirage,
        r is Wireguard <==> n is Wireguard,
        r is Shadowsocks || r is BadKey <==> n is Shadowsocks,
        r is NoMember <==> n is Urltest || n is Fallback || n is Selector || n is LoadBalance,
        r is TooLong ==> encode_utf8(address_format(target)).len() > 65535,
        r matches Opening::Tunnel(i, h) ==> i == l && crate::address::header_text(h@) == Some(
            encode_utf8(address_format(target)),
        ),
        r matches Opening::Wireguard(i) ==> i == l,
        r matches Opening::Shadowsocks(i, u) ==> i == l && u == n->underlying,
{
    if n is Mirage && encode_utf8(address_format(target)).len() <= 65535 {
        let t = address_format(target);
        crate::address::law_target_roundtrip(t, seq![]);
        assert(target_header(t) + seq![] =~= target_header(t));
    }
}

} // verus!
