//! Joining a host and a port to one text.

use vstd::prelude::*;

use crate::ip::{ipv6_text, parse_ipv6};
use crate::text::{chars_of, decimal, push_chars, push_decimal, string_of};

verus! {

/// `host:port`, with brackets around a host that is a version 6 address.
pub open spec fn host_port(host: Seq<char>, port: u16) -> Seq<char> {
    if ipv6_text(host) is Some {
        seq!['['] + host + seq![']', ':'] + decimal(port as nat)
    } else {
        host + seq![':'] + decimal(port as nat)
    }
}

/// Joins a host and a port; a version 6 address is put in brackets, anything else stays as it is.
pub fn join_host_port(host: &str, port: u16) -> (r: String)
    ensures
        r@ == host_port(host@, port),
{
    let h: Vec<char> = chars_of(host);
    let mut out: Vec<char> = Vec::new();
    match parse_ipv6(h.as_slice()) {
        Some(_) => {
            out.push('[');
            push_chars(&mut out, h.as_slice());
            out.push(']');
        },
        None => {
            push_chars(&mut out, h.as_slice());
        },
    }
    out.push(':');
    push_decimal(&mut out, port as u64);
    assert(out@ =~= host_port(host@, port));
    string_of(out.as_slice())
}

/// A host and a port that were joined are split again, whatever the host is.
pub proof fn law_joined_is_split(host: Seq<char>, port: u16)
    requires
        host.len() < 2 || host[0] != '[' || host.last() != ']',
    ensures
        crate::resolver::host_and_port(host_port(host, port)) == Some((host, port)),
{
    crate::resolver::law_target_split(host, port);
    let d = decimal(port as nat);
    assert(seq!['['] + host + seq![']', ':'] + d =~= seq!['['] + host + seq![']'] + seq![':'] + d);
}

} // verus!
