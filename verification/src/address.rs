//! The target of a connection: a name or an address, with a port.

use vstd::prelude::*;
use vstd::utf8::encode_utf8;

use crate::ip::{parse_socket, socket_format, socket_string, socket_text, SocketAddr, SocketView};
use crate::net_util::{host_port, join_host_port};
use crate::seqs::{last_index, lemma_last_index_bounds};
use crate::text::{chars_of, copy_chars, decimal, parse_uint, rfind_char, string_of, uint_text};
use crate::wire::{be16, push_bytes, push_u16};

verus! {

/// The target of a connection.
pub enum Address {
    Domain(String, u16),
    Socket(SocketAddr),
}

/// A target as a value.
#[verifier::ext_equal]
pub enum AddressView {
    Domain(Seq<char>, u16),
    Socket(SocketView),
}

impl View for Address {
    type V = AddressView;

    open spec fn view(&self) -> AddressView {
        match *self {
            Address::Domain(h, p) => AddressView::Domain(h@, p),
            Address::Socket(a) => AddressView::Socket(a@),
        }
    }
}

/// Why a text is no target.
#[derive(Clone, Copy, PartialEq, Eq, Structural, Debug)]
pub enum AddressError {
    BadV6,
    NoPort,
    EmptyHost,
    BadPort,
}

/// The index of the first closing bracket with a colon behind it; the length where there is none.
pub open spec fn bracket_colon(s: Seq<char>) -> int
    decreases s.len(),
{
    if s.len() < 2 {
        s.len() as int
    } else if s[0] == ']' && s[1] == ':' {
        0
    } else {
        1 + bracket_colon(s.drop_first())
    }
}

proof fn lemma_bracket_colon(s: Seq<char>)
    ensures
        0 <= bracket_colon(s) <= s.len(),
        bracket_colon(s) < s.len() ==> bracket_colon(s) + 2 <= s.len(),
    decreases s.len(),
{
    if s.len() >= 2 && !(s[0] == ']' && s[1] == ':') {
        lemma_bracket_colon(s.drop_first());
    }
}

fn find_bracket_colon(s: &[char]) -> (r: usize)
    ensures
        r == bracket_colon(s@),
        r <= s@.len(),
        r < s@.len() ==> r + 2 <= s@.len(),
{
    proof {
        lemma_bracket_colon(s@);
    }
    if s.len() < 2 {
        return s.len();
    }
    assert(s@.skip(0) =~= s@);
    let mut i: usize = 0;
    while i < s.len() - 1
        invariant
            2 <= s@.len(),
            i < s@.len(),
            bracket_colon(s@) == i + bracket_colon(s@.skip(i as int)),
        decreases s@.len() - i,
    {
        assert(s@.skip(i as int).drop_first() =~= s@.skip(i + 1));
        if s[i] == ']' && s[i + 1] == ':' {
            proof {
                lemma_bracket_colon(s@);
            }
            return i;
        }
        i = i + 1;
    }
    s.len()
}

/// The host and the port of a target that is no address.
pub open spec fn named_target(s: Seq<char>) -> Result<(Seq<char>, Seq<char>), AddressError> {
    if s.len() > 0 && s[0] == '[' {
        let i = bracket_colon(s.skip(1));
        if i == s.len() - 1 {
            Err(AddressError::BadV6)
        } else {
            Ok((s.subrange(1, 1 + i), s.skip(i + 3)))
        }
    } else {
        let i = last_index(s, ':');
        if i < 0 {
            Err(AddressError::NoPort)
        } else {
            Ok((s.take(i), s.skip(i + 1)))
        }
    }
}

/// The target that a text names.
pub open spec fn address_text(s: Seq<char>) -> Result<AddressView, AddressError> {
    match socket_text(s) {
        Some(a) => Ok(AddressView::Socket(a)),
        None => match named_target(s) {
            Err(e) => Err(e),
            Ok(hp) => if hp.0.len() == 0 {
                Err(AddressError::EmptyHost)
            } else {
                match uint_text(hp.1, 65535) {
                    None => Err(AddressError::BadPort),
                    Some(p) => Ok(AddressView::Domain(hp.0, p as u16)),
                }
            },
        },
    }
}

/// How a target is written.
pub open spec fn address_format(a: AddressView) -> Seq<char> {
    match a {
        AddressView::Domain(h, p) => host_port(h, p),
        AddressView::Socket(s) => socket_format(s),
    }
}

/// The message that asks a server for a target: the length of its text and the text.
pub open spec fn target_header(text: Seq<char>) -> Seq<u8> {
    be16((encode_utf8(text).len() % 65536) as u16) + encode_utf8(text)
}

impl Address {
    /// Reads a target: an address with a port, or a name with a port.
    pub fn parse(s: &str) -> (r: Result<Address, AddressError>)
        ensures
            match r {
                Ok(a) => address_text(s@) == Ok::<AddressView, AddressError>(a@),
                Err(e) => address_text(s@) == Err::<AddressView, AddressError>(e),
            },
    {
        let c: Vec<char> = chars_of(s);
        match parse_socket(c.as_slice()) {
            Some(a) => {
                return Ok(Address::Socket(a));
            },
            None => {},
        }
        let n: usize = c.len();
        let host: Vec<char>;
        let port: Vec<char>;
        if n > 0 && c[0] == '[' {
            let rest: Vec<char> = copy_chars(c.as_slice(), 1, n);
            assert(rest@ =~= s@.skip(1));
            let i: usize = find_bracket_colon(rest.as_slice());
            if i == n - 1 {
                return Err(AddressError::BadV6);
            }
            host = copy_chars(c.as_slice(), 1, 1 + i);
            port = copy_chars(c.as_slice(), i + 3, n);
            assert(port@ =~= s@.skip(i + 3));
        } else {
            proof {
                lemma_last_index_bounds(s@, ':');
            }
            match rfind_char(c.as_slice(), ':') {
                None => {
                    return Err(AddressError::NoPort);
                },
                Some(i) => {
                    host = copy_chars(c.as_slice(), 0, i);
                    port = copy_chars(c.as_slice(), i + 1, n);
                    assert(host@ =~= s@.take(i as int));
                    assert(port@ =~= s@.skip(i + 1));
                },
            }
        }
        if host.len() == 0 {
            return Err(AddressError::EmptyHost);
        }
        match parse_uint(port.as_slice(), 65535) {
            None => Err(AddressError::BadPort),
            Some(p) => Ok(Address::Domain(string_of(host.as_slice()), p as u16)),
        }
    }

    /// The port.
    pub fn port(&self) -> (r: u16)
        ensures
            r == match self@ {
                AddressView::Domain(h, p) => p,
                AddressView::Socket(a) => a.port(),
            },
    {
        match self {
            Address::Domain(_, p) => *p,
            Address::Socket(a) => a.port(),
        }
    }

    /// The target as text, with brackets around a version 6 address.
    pub fn host_port(&self) -> (r: String)
        ensures
            r@ == address_format(self@),
    {
        match self {
            Address::Domain(h, p) => join_host_port(h.as_str(), *p),
            Address::Socket(a) => socket_string(a),
        }
    }
}

/// Frames the text of a target for a server. The length field holds sixteen bits.
pub fn frame_target(text: &str) -> (r: Vec<u8>)
    ensures
        r@ == target_header(text@),
{
    let b: &[u8] = text.as_bytes();
    let mut out: Vec<u8> = Vec::new();
    let n: u16 = crate::frames::low16(b.len());
    push_u16(&mut out, n);
    push_bytes(&mut out, b);
    assert(out@ =~= target_header(text@));
    out
}

/// The text that a target message asks for.
pub open spec fn header_text(b: Seq<u8>) -> Option<Seq<u8>> {
    if b.len() < 2 || b.len() < 2 + crate::wire::u16_at(b, 0) {
        None
    } else {
        Some(b.subrange(2, 2 + crate::wire::u16_at(b, 0)))
    }
}

/// A framed target is read back as it was written, whatever follows it.
pub proof fn law_target_roundtrip(text: Seq<char>, rest: Seq<u8>)
    requires
        encode_utf8(text).len() <= 65535,
    ensures
        header_text(target_header(text) + rest) == Some(encode_utf8(text)),
{
    let b = target_header(text) + rest;
    let n = encode_utf8(text).len() as u16;
    assert(b.subrange(0, 2) =~= be16(n));
    crate::wire::lemma_be16_at(n, b, 0);
    assert(b.subrange(2, 2 + n) =~= encode_utf8(text));
}

/// A text that is no address is refused, each for its own reason: no colon, nothing before the last one,
/// and no number up to 65535 behind it.
pub proof fn law_address_faults(host: Seq<char>, port: Seq<char>)
    requires
        !port.contains(':'),
    ensures
        socket_text(port) is None && (port.len() == 0 || port[0] != '[') ==> address_text(port) == Err::<AddressView, AddressError>(
            AddressError::NoPort,
        ),
        socket_text(seq![':'] + port) is None ==> address_text(seq![':'] + port) == Err::<AddressView, AddressError>(
            AddressError::EmptyHost,
        ),
        host.len() > 0 && host[0] != '[' && socket_text(host + seq![':'] + port) is None && uint_text(port, 65535) is None
            ==> address_text(host + seq![':'] + port) == Err::<AddressView, AddressError>(AddressError::BadPort),
{
    lemma_last_index_bounds(port, ':');
    if last_index(port, ':') >= 0 {
        assert(port.contains(port[last_index(port, ':')]));
    }
    lemma_behind_colon(seq![], port);
    assert(Seq::<char>::empty() + seq![':'] + port =~= seq![':'] + port);
    lemma_behind_colon(host, port);
    if host.len() > 0 {
        assert((host + seq![':'] + port)[0] == host[0]);
    }
}

proof fn lemma_behind_colon(host: Seq<char>, port: Seq<char>)
    requires
        !port.contains(':'),
    ensures
        ({
            let t = host + seq![':'] + port;
            &&& last_index(t, ':') == host.len()
            &&& t.take(host.len() as int) == host
            &&& t.skip(host.len() as int + 1) == port
        }),
{
    let t = host + seq![':'] + port;
    let n = host.len() as int;
    assert forall|j: int| n < j < t.len() implies t[j] != ':' by {
        assert(t[j] == port[j - n - 1]);
        assert(port.contains(port[j - n - 1]));
    }
    crate::seqs::lemma_last_index_is(t, ':', n);
    assert(t.take(n) =~= host);
    assert(t.skip(n + 1) =~= port);
}

/// A host in square brackets is read without them: it ends at the first closing bracket with a colon
/// behind it.
pub proof fn law_bracketed_host(inner: Seq<char>, port: u16)
    requires
        inner.len() > 0,
        !inner.contains(']'),
        socket_text(seq!['['] + inner + seq![']', ':'] + decimal(port as nat)) is None,
    ensures
        address_text(seq!['['] + inner + seq![']', ':'] + decimal(port as nat)) == Ok::<AddressView, AddressError>(
            AddressView::Domain(inner, port),
        ),
{
    let d = decimal(port as nat);
    let s = seq!['['] + inner + seq![']', ':'] + d;
    let r = s.skip(1);
    assert(r =~= inner + seq![']', ':'] + d);
    lemma_bracket_at(inner, d);
    let n = inner.len() as int;
    assert(s.subrange(1, 1 + n) =~= inner);
    assert(s.skip(n + 3) =~= d);
    crate::text::law_decimal_roundtrip(port as nat, 65535);
}

proof fn lemma_bracket_at(inner: Seq<char>, d: Seq<char>)
    requires
        !inner.contains(']'),
    ensures
        bracket_colon(inner + seq![']', ':'] + d) == inner.len(),
    decreases inner.len(),
{
    let s = inner + seq![']', ':'] + d;
    if inner.len() > 0 {
        let t = inner.drop_first();
        assert(s.drop_first() =~= t + seq![']', ':'] + d);
        assert(s[0] == inner[0]);
        assert(inner.contains(inner[0]));
        assert forall|c: char| t.contains(c) implies inner.contains(c) by {
            assert(inner[t.index_of(c) + 1] == c);
        }
        lemma_bracket_at(t, d);
    }
}

} // verus!
