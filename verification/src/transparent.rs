//! Intercepted connections: where they were meant to go, and the route that intercepts them.

use vstd::prelude::*;

use crate::ip::{is_loopback_ip, ipv4_format, push_ipv4, socket_text, IpView, SocketAddr, SocketView};
use crate::text::{chars_of, decimal, opt_text, push_decimal, push_text, string_of};

verus! {

/// Where an intercepted connection was meant to go: to its own destination, or, where that is this
/// machine, to the one that was recorded for it. `None` where that is not known, or is the listener
/// itself, or is no version 4 address.
pub open spec fn meant_for(dst: SocketView, recorded: Option<SocketView>, listen_port: u16) -> Option<SocketView> {
    let d = if is_loopback_ip(dst.ip()) {
        recorded
    } else {
        Some(dst)
    };
    match d {
        None => None,
        Some(a) => if is_loopback_ip(a.ip()) && a.port() == listen_port {
            None
        } else if a is V4 {
            Some(a)
        } else {
            None
        },
    }
}

/// Where an intercepted connection was meant to go: address and port.
pub fn intercepted_target(dst: SocketAddr, recorded: Option<SocketAddr>, listen_port: u16) -> (r: Option<([u8; 4], u16)>)
    ensures
        match r {
            Some(x) => meant_for(dst@, crate::ip::opt_socket(recorded), listen_port) == Some(SocketView::V4(x.0@, x.1)),
            None => meant_for(dst@, crate::ip::opt_socket(recorded), listen_port) is None,
        },
{
    let d: SocketAddr = if dst.ip().is_loopback() {
        match recorded {
            Some(a) => a,
            None => {
                return None;
            },
        }
    } else {
        dst
    };
    if d.ip().is_loopback() && d.port() == listen_port {
        return None;
    }
    match d {
        SocketAddr::V4(o, p) => Some((o, p)),
        SocketAddr::V6(_, _, _) => None,
    }
}

/// The text of a target: the name that its address stands for, or the name that the client is after, or
/// the address.
pub open spec fn target_named(o: Seq<u8>, port: u16, stands_for: Option<Seq<char>>, sniffed: Option<Seq<char>>) -> Seq<char> {
    let host = match stands_for {
        Some(d) => d,
        None => match sniffed {
            Some(d) => d,
            None => ipv4_format(o),
        },
    };
    host + seq![':'] + decimal(port as nat)
}

/// The text of a target. `stands_for` is the name that its address stands for, and `sniffed` the name
/// that the client is after, where they are known.
pub fn target_text(o: &[u8; 4], port: u16, stands_for: &Option<String>, sniffed: &Option<String>) -> (r: String)
    ensures
        r@ == target_named(o@, port, opt_text(*stands_for), opt_text(*sniffed)),
{
    let mut out: Vec<char> = Vec::new();
    match stands_for {
        Some(d) => push_text(&mut out, d.as_str()),
        None => {
            match sniffed {
                Some(d) => push_text(&mut out, d.as_str()),
                None => push_ipv4(&mut out, o),
            }
        },
    }
    out.push(':');
    push_decimal(&mut out, port as u64);
    assert(out@ =~= target_named(o@, port, opt_text(*stands_for), opt_text(*sniffed)));
    string_of(out.as_slice())
}

/// Where datagrams are intercepted: at the address of the listener, where it is one of version 4.
pub fn udp_bind(listen: &str) -> (r: Option<([u8; 4], u16)>)
    ensures
        match socket_text(listen@) {
            Some(SocketView::V4(o, p)) => r matches Some(x) && x.0@ == o && x.1 == p,
            _ => r is None,
        },
{
    let c: Vec<char> = chars_of(listen);
    match crate::ip::parse_socket(c.as_slice()) {
        Some(SocketAddr::V4(o, p)) => Some((o, p)),
        _ => None,
    }
}

/// A connection to the listener itself is never passed on.
pub proof fn law_no_loop(dst: SocketView, listen_port: u16)
    requires
        is_loopback_ip(dst.ip()),
        dst.port() == listen_port,
    ensures
        meant_for(dst, Some(dst), listen_port) is None,
        meant_for(dst, None, listen_port) is None,
{
}

/// The network whose connections are intercepted.
pub open spec fn route_text(net: Seq<u8>, prefix: u8) -> Seq<char> {
    ipv4_format(net) + seq!['/'] + decimal(prefix as nat)
}

/// The network whose connections are intercepted, as a route names it.
pub fn route_net(net: &[u8; 4], prefix: u8) -> (r: String)
    ensures
        r@ == route_text(net@, prefix),
{
    let mut out: Vec<char> = Vec::new();
    push_ipv4(&mut out, net);
    out.push('/');
    push_decimal(&mut out, prefix as u64);
    assert(out@ =~= route_text(net@, prefix));
    string_of(out.as_slice())
}

/// The route that has been installed.
pub struct Route {
    pub installed: Option<([u8; 4], u8)>,
}

/// Notes how installing a route went.
pub fn route_installed(r: &mut Route, net: [u8; 4], prefix: u8, worked: bool)
    ensures
        final(r).installed == (if worked {
            Some((net, prefix))
        } else {
            old(r).installed
        }),
{
    if worked {
        r.installed = Some((net, prefix));
    }
}

/// The route that has to be removed, where one has been installed. It is removed once.
pub fn route_cleanup(r: &mut Route) -> (net: Option<String>)
    ensures
        final(r).installed is None,
        opt_text(net) == match old(r).installed {
            Some(x) => Some(route_text(x.0@, x.1)),
            None => None,
        },
{
    let was: Option<([u8; 4], u8)> = r.installed;
    r.installed = None;
    match was {
        Some(x) => Some(route_net(&x.0, x.1)),
        None => None,
    }
}

/// A connection to another machine was meant for it; one that was led to this machine was meant for what
/// was recorded. Addresses of version 6 and unrecorded ones are not known.
pub proof fn law_meant_for(o: Seq<u8>, p: u16, dst: SocketView, recorded: Option<SocketView>, listen_port: u16)
    ensures
        !is_loopback_ip(IpView::V4(o)) ==> meant_for(SocketView::V4(o, p), recorded, listen_port) == Some(
            SocketView::V4(o, p),
        ),
        is_loopback_ip(dst.ip()) && !(is_loopback_ip(IpView::V4(o)) && p == listen_port) ==> meant_for(
            dst,
            Some(SocketView::V4(o, p)),
            listen_port,
        ) == Some(SocketView::V4(o, p)),
        is_loopback_ip(dst.ip()) && recorded is None ==> meant_for(dst, recorded, listen_port) is None,
        !is_loopback_ip(dst.ip()) && dst is V6 ==> meant_for(dst, recorded, listen_port) is None,
        is_loopback_ip(dst.ip()) && (recorded matches Some(a) && a is V6) ==> meant_for(dst, recorded, listen_port) is None,
{
}

/// The name that an address stands for goes before the name that the client is after, and that before the
/// address; the port is the same in all of them.
pub proof fn law_names_first(o: Seq<u8>, port: u16, name: Seq<char>, sniffed: Option<Seq<char>>)
    ensures
        target_named(o, port, Some(name), sniffed) == name + seq![':'] + decimal(port as nat),
        target_named(o, port, None, Some(name)) == name + seq![':'] + decimal(port as nat),
        target_named(o, port, None, None) == ipv4_format(o) + seq![':'] + decimal(port as nat),
{
}

/// A network is written as its address and its length, and both can be read back.
pub proof fn law_route_written(net: Seq<u8>, prefix: u8)
    requires
        net.len() == 4,
    ensures
        ({
            let c = crate::text::cut(route_text(net, prefix), '/');
            &&& c is Some
            &&& crate::ip::ipv4_text((c->0).0) == Some(net)
            &&& crate::text::uint_text((c->0).1, 255) == Some(prefix as int)
        }),
{
    crate::ip::law_ipv4_roundtrip(net);
    crate::ip_laws::lemma_ipv4_chars(net);
    crate::text::law_decimal_roundtrip(prefix as nat, 255);
    let f = ipv4_format(net);
    if f.contains('/') {
        let i = f.index_of('/');
        assert(f[i] == '/');
    }
    crate::text::law_cut_at_first(f, '/', decimal(prefix as nat));
}

} // verus!
