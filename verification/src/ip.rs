//! IP addresses and socket addresses: their text forms, read and written.

use vstd::prelude::*;
use vstd::slice::slice_subrange;

use crate::seqs::{lemma_until_bounds, lemma_until_is, pieces, until};
use crate::text::{
    chars_of, decimal, digits_value, find_char, is_digit, lemma_decimal_value, lemma_pieces_nonempty, parse_uint,
    push_decimal, split_char, string_of, strip_plus, uint_text,
};
use crate::wire::{be16, u16_at};

verus! {

/// An IP address as its octets, most significant first.
#[derive(Clone, Copy, PartialEq, Eq, Debug)]
pub enum IpAddr {
    V4([u8; 4]),
    V6([u8; 16]),
}

/// An IP address with a port; a version 6 address may name a scope, zero where it names none.
#[derive(Clone, Copy, PartialEq, Eq, Debug)]
pub enum SocketAddr {
    V4([u8; 4], u16),
    V6([u8; 16], u16, u32),
}

/// The octets of an address: the model that contracts speak of.
#[verifier::ext_equal]
pub enum IpView {
    V4(Seq<u8>),
    V6(Seq<u8>),
}

/// The model of a socket address.
#[verifier::ext_equal]
pub enum SocketView {
    V4(Seq<u8>, u16),
    V6(Seq<u8>, u16, u32),
}

impl View for IpAddr {
    type V = IpView;

    open spec fn view(&self) -> IpView {
        match *self {
            IpAddr::V4(o) => IpView::V4(o@),
            IpAddr::V6(o) => IpView::V6(o@),
        }
    }
}

impl View for SocketAddr {
    type V = SocketView;

    open spec fn view(&self) -> SocketView {
        match *self {
            SocketAddr::V4(o, p) => SocketView::V4(o@, p),
            SocketAddr::V6(o, p, s) => SocketView::V6(o@, p, s),
        }
    }
}

/// An optional address as an optional model.
pub open spec fn opt_ip(r: Option<IpAddr>) -> Option<IpView> {
    match r {
        Some(a) => Some(a@),
        None => None,
    }
}

/// An optional socket address as an optional model.
pub open spec fn opt_socket(r: Option<SocketAddr>) -> Option<SocketView> {
    match r {
        Some(a) => Some(a@),
        None => None,
    }
}

impl SocketView {
    /// The address without its port.
    pub open spec fn ip(self) -> IpView {
        match self {
            SocketView::V4(o, _) => IpView::V4(o),
            SocketView::V6(o, _, _) => IpView::V6(o),
        }
    }

    /// The port.
    pub open spec fn port(self) -> u16 {
        match self {
            SocketView::V4(_, p) => p,
            SocketView::V6(_, p, _) => p,
        }
    }
}

impl SocketAddr {
    /// A socket address without a scope.
    pub fn new(ip: IpAddr, port: u16) -> (r: SocketAddr)
        ensures
            r@ == socket_of(ip@, port),
    {
        match ip {
            IpAddr::V4(o) => SocketAddr::V4(o, port),
            IpAddr::V6(o) => SocketAddr::V6(o, port, 0),
        }
    }

    /// The address without its port.
    pub fn ip(&self) -> (r: IpAddr)
        ensures
            r@ == self@.ip(),
    {
        match *self {
            SocketAddr::V4(o, _) => IpAddr::V4(o),
            SocketAddr::V6(o, _, _) => IpAddr::V6(o),
        }
    }

    /// The port.
    pub fn port(&self) -> (r: u16)
        ensures
            r == self@.port(),
    {
        match *self {
            SocketAddr::V4(_, p) => p,
            SocketAddr::V6(_, p, _) => p,
        }
    }

    /// True for a version 6 address.
    pub fn is_ipv6(&self) -> (r: bool)
        ensures
            r == (self@ is V6),
    {
        match *self {
            SocketAddr::V4(_, _) => false,
            SocketAddr::V6(_, _, _) => true,
        }
    }
}

/// A socket address without a scope.
pub open spec fn socket_of(ip: IpView, port: u16) -> SocketView {
    match ip {
        IpView::V4(o) => SocketView::V4(o, port),
        IpView::V6(o) => SocketView::V6(o, port, 0),
    }
}

/// True for 127.0.0.0/8 and for `::1`.
pub open spec fn is_loopback_ip(ip: IpView) -> bool {
    match ip {
        IpView::V4(o) => o[0] == 127,
        IpView::V6(o) => o[15] == 1 && forall|i: int| 0 <= i < 15 ==> o[i] == 0,
    }
}

fn same4(a: &[u8; 4], b: &[u8; 4]) -> (r: bool)
    ensures
        r == (a@ == b@),
{
    let r: bool = a[0] == b[0] && a[1] == b[1] && a[2] == b[2] && a[3] == b[3];
    assert(r ==> a@ =~= b@);
    r
}

fn same16(a: &[u8; 16], b: &[u8; 16]) -> (r: bool)
    ensures
        r == (a@ == b@),
{
    let mut i: usize = 0;
    while i < 16
        invariant
            i <= 16,
            forall|j: int| 0 <= j < i ==> a@[j] == b@[j],
        decreases 16 - i,
    {
        if a[i] != b[i] {
            return false;
        }
        i = i + 1;
    }
    assert(a@ =~= b@);
    true
}

impl IpAddr {
    /// True for 127.0.0.0/8 and for `::1`.
    pub fn is_loopback(&self) -> (r: bool)
        ensures
            r == is_loopback_ip(self@),
    {
        match self {
            IpAddr::V4(o) => o[0] == 127,
            IpAddr::V6(o) => {
                let mut i: usize = 0;
                while i < 15
                    invariant
                        i <= 15,
                        self@ == IpView::V6(o@),
                        forall|j: int| 0 <= j < i ==> o@[j] == 0,
                    decreases 15 - i,
                {
                    if o[i] != 0 {
                        return false;
                    }
                    i = i + 1;
                }
                o[15] == 1
            },
        }
    }

    /// True where both addresses are the same.
    pub fn same_as(&self, other: &IpAddr) -> (r: bool)
        ensures
            r == (self@ == other@),
    {
        match (self, other) {
            (IpAddr::V4(a), IpAddr::V4(b)) => same4(a, b),
            (IpAddr::V6(a), IpAddr::V6(b)) => same16(a, b),
            _ => false,
        }
    }
}

/// A decimal number from 0 to 255 in one to three digits, without leading zeros.
pub open spec fn octet_text(s: Seq<char>) -> Option<u8> {
    if 1 <= s.len() <= 3 && (forall|i: int| 0 <= i < s.len() ==> is_digit(#[trigger] s[i])) && (s.len() > 1 ==> s[0]
        != '0') && digits_value(s) <= 255 {
        Some(digits_value(s) as u8)
    } else {
        None
    }
}

fn parse_octet(s: &[char]) -> (r: Option<u8>)
    ensures
        r == octet_text(s@),
{
    if s.len() == 0 || s.len() > 3 || s[0] == '+' {
        return None;
    }
    assert(strip_plus(s@) == s@);
    if s.len() > 1 && s[0] == '0' {
        return None;
    }
    match parse_uint(s, 255) {
        Some(n) => Some(n as u8),
        None => None,
    }
}

/// Four octets joined by dots.
pub open spec fn ipv4_text(s: Seq<char>) -> Option<Seq<u8>> {
    let p = pieces(s, '.');
    if p.len() == 4 && octet_text(p[0]) is Some && octet_text(p[1]) is Some && octet_text(p[2]) is Some && octet_text(
        p[3],
    ) is Some {
        Some(
            seq![
                octet_text(p[0])->0,
                octet_text(p[1])->0,
                octet_text(p[2])->0,
                octet_text(p[3])->0,
            ],
        )
    } else {
        None
    }
}

/// Reads a version 4 address.
pub fn parse_ipv4(s: &[char]) -> (r: Option<[u8; 4]>)
    ensures
        match r {
            Some(o) => ipv4_text(s@) == Some(o@),
            None => ipv4_text(s@) is None,
        },
{
    let p: Vec<Vec<char>> = split_char(s, '.');
    if p.len() != 4 {
        return None;
    }
    let a: Option<u8> = parse_octet(p[0].as_slice());
    let b: Option<u8> = parse_octet(p[1].as_slice());
    let c: Option<u8> = parse_octet(p[2].as_slice());
    let d: Option<u8> = parse_octet(p[3].as_slice());
    assert(p@[0]@ == pieces(s@, '.')[0] && p@[1]@ == pieces(s@, '.')[1] && p@[2]@ == pieces(s@, '.')[2] && p@[3]@
        == pieces(s@, '.')[3]);
    match (a, b, c, d) {
        (Some(a), Some(b), Some(c), Some(d)) => {
            let o: [u8; 4] = [a, b, c, d];
            assert(o@ =~= seq![a, b, c, d]);
            Some(o)
        },
        _ => None,
    }
}

/// The value of a hexadecimal digit; -1 for any other character.
pub open spec fn hex_value(c: char) -> int {
    if '0' <= c <= '9' {
        c as u32 - '0' as u32
    } else if 'a' <= c <= 'f' {
        c as u32 - 'a' as u32 + 10
    } else if 'A' <= c <= 'F' {
        c as u32 - 'A' as u32 + 10
    } else {
        -1
    }
}

/// Reads one hexadecimal digit.
pub fn hex_digit(c: char) -> (r: Option<u8>)
    ensures
        match r {
            Some(v) => v == hex_value(c) && v < 16,
            None => hex_value(c) == -1,
        },
{
    let u: u32 = c as u32;
    if '0' <= c && c <= '9' {
        Some((u - 48) as u8)
    } else if 'a' <= c && c <= 'f' {
        Some((u - 87) as u8)
    } else if 'A' <= c && c <= 'F' {
        Some((u - 55) as u8)
    } else {
        None
    }
}

/// The number that a sequence of hexadecimal digits stands for.
pub open spec fn hex_number(s: Seq<char>) -> int
    decreases s.len(),
{
    if s.len() == 0 {
        0
    } else {
        hex_number(s.drop_last()) * 16 + hex_value(s.last())
    }
}

/// A group of a version 6 address: one to four hexadecimal digits.
pub open spec fn group_text(s: Seq<char>) -> Option<u16> {
    if 1 <= s.len() <= 4 && forall|i: int| 0 <= i < s.len() ==> hex_value(#[trigger] s[i]) >= 0 {
        Some(hex_number(s) as u16)
    } else {
        None
    }
}

fn parse_group(s: &[char]) -> (r: Option<u16>)
    ensures
        r == group_text(s@),
{
    if s.len() == 0 || s.len() > 4 {
        return None;
    }
    let mut acc: u32 = 0;
    let mut i: usize = 0;
    while i < s.len()
        invariant
            i <= s@.len() <= 4,
            acc == hex_number(s@.take(i as int)),
            i == 0 ==> acc == 0,
            i == 1 ==> acc <= 0xf,
            i == 2 ==> acc <= 0xff,
            i == 3 ==> acc <= 0xfff,
            i == 4 ==> acc <= 0xffff,
            forall|j: int| 0 <= j < i ==> hex_value(#[trigger] s@[j]) >= 0,
        decreases s@.len() - i,
    {
        match hex_digit(s[i]) {
            Some(v) => {
                assert(s@.take(i + 1).drop_last() =~= s@.take(i as int));
                acc = acc * 16 + v as u32;
                i = i + 1;
            },
            None => {
                assert(hex_value(s@[i as int]) == -1);
                return None;
            },
        }
    }
    assert(s@.take(i as int) =~= s@);
    Some(acc as u16)
}

/// Groups of a version 6 address, of which the last may be a version 4 address in place of two.
pub open spec fn groups_of(p: Seq<Seq<char>>, v4_ok: bool) -> Option<Seq<u16>>
    decreases p.len(),
{
    if p.len() == 0 {
        Some(seq![])
    } else {
        match groups_of(p.drop_last(), false) {
            None => None,
            Some(g) => if group_text(p.last()) is Some {
                Some(g.push(group_text(p.last())->0))
            } else if v4_ok && ipv4_text(p.last()) is Some {
                let o = ipv4_text(p.last())->0;
                Some(g + seq![u16_at(o, 0) as u16, u16_at(o, 2) as u16])
            } else {
                None
            },
        }
    }
}

/// Groups joined by colons; no text at all is no group.
pub open spec fn groups_text(s: Seq<char>, v4_ok: bool) -> Option<Seq<u16>> {
    if s.len() == 0 {
        Some(seq![])
    } else {
        groups_of(pieces(s, ':'), v4_ok)
    }
}

proof fn lemma_groups_of_prefix(p: Seq<Seq<char>>, n: int, v4_ok: bool)
    requires
        0 <= n < p.len(),
        groups_of(p.take(n), false) is None,
    ensures
        groups_of(p, v4_ok) is None,
    decreases p.len(),
{
    if n == p.len() - 1 {
        assert(p.drop_last() =~= p.take(n));
    } else {
        assert(p.drop_last().take(n) =~= p.take(n));
        lemma_groups_of_prefix(p.drop_last(), n, false);
    }
}

fn parse_groups(s: &[char], v4_ok: bool) -> (r: Option<Vec<u16>>)
    ensures
        match r {
            Some(g) => groups_text(s@, v4_ok) == Some(g@),
            None => groups_text(s@, v4_ok) is None,
        },
{
    if s.len() == 0 {
        let v: Vec<u16> = Vec::new();
        assert(v@ =~= seq![]);
        return Some(v);
    }
    let parts: Vec<Vec<char>> = split_char(s, ':');
    let ghost p = pieces(s@, ':');
    proof {
        lemma_pieces_nonempty(s@, ':');
    }
    let mut out: Vec<u16> = Vec::new();
    let mut i: usize = 0;
    assert(p.take(0) =~= seq![]);
    assert(out@ =~= seq![]);
    while i < parts.len() - 1
        invariant
            s@.len() > 0,
            p == pieces(s@, ':'),
            parts@.len() == p.len(),
            1 <= p.len(),
            i < p.len(),
            forall|k: int| 0 <= k < parts@.len() ==> (#[trigger] parts@[k])@ == p[k],
            groups_of(p.take(i as int), false) == Some(out@),
        decreases p.len() - i,
    {
        let ghost next = p.take(i + 1);
        assert(parts@[i as int]@ == p[i as int]);
        assert(next.drop_last() =~= p.take(i as int));
        assert(next.last() == p[i as int]);
        match parse_group(parts[i].as_slice()) {
            Some(g) => {
                out.push(g);
                i = i + 1;
            },
            None => {
                proof {
                    lemma_groups_of_prefix(p, i + 1, v4_ok);
                }
                return None;
            },
        }
    }
    assert(parts@[i as int]@ == p.last());
    assert(p.take(i as int) =~= p.drop_last());
    match parse_group(parts[i].as_slice()) {
        Some(g) => {
            out.push(g);
            return Some(out);
        },
        None => {},
    }
    if !v4_ok {
        return None;
    }
    match parse_ipv4(parts[i].as_slice()) {
        Some(o) => {
            let ghost before = out@;
            out.push((o[0] as u16) * 256 + o[1] as u16);
            out.push((o[2] as u16) * 256 + o[3] as u16);
            assert(out@ =~= before + seq![u16_at(o@, 0) as u16, u16_at(o@, 2) as u16]);
            Some(out)
        },
        None => None,
    }
}

/// The index of the first pair of colons; the length where there is none.
pub open spec fn double_colon(s: Seq<char>) -> int
    decreases s.len(),
{
    if s.len() < 2 {
        s.len() as int
    } else if s[0] == ':' && s[1] == ':' {
        0
    } else {
        1 + double_colon(s.drop_first())
    }
}

proof fn lemma_double_colon(s: Seq<char>)
    ensures
        0 <= double_colon(s) <= s.len(),
        double_colon(s) < s.len() ==> double_colon(s) + 2 <= s.len(),
    decreases s.len(),
{
    if s.len() >= 2 && !(s[0] == ':' && s[1] == ':') {
        lemma_double_colon(s.drop_first());
    }
}

fn find_double_colon(s: &[char]) -> (r: usize)
    ensures
        r == double_colon(s@),
        r <= s@.len(),
        r < s@.len() ==> r + 2 <= s@.len(),
{
    proof {
        lemma_double_colon(s@);
    }
    if s.len() < 2 {
        return s.len();
    }
    assert(s@.skip(0) =~= s@);
    let mut i: usize = 0;
    while i < s.len() - 1
        invariant
            2 <= s@.len(),
            i < s@.len(),
            double_colon(s@) == i + double_colon(s@.skip(i as int)),
        decreases s@.len() - i,
    {
        assert(s@.skip(i as int).drop_first() =~= s@.skip(i + 1));
        if s[i] == ':' && s[i + 1] == ':' {
            return i;
        }
        i = i + 1;
    }
    s.len()
}

/// The octets of a sequence of groups.
pub open spec fn group_octets(g: Seq<u16>) -> Seq<u8>
    decreases g.len(),
{
    if g.len() == 0 {
        seq![]
    } else {
        group_octets(g.drop_last()) + be16(g.last())
    }
}

/// Eight groups, of which one run of at least one zero group may be left out and written `::`.
pub open spec fn ipv6_groups(s: Seq<char>) -> Option<Seq<u16>> {
    let d = double_colon(s);
    if d == s.len() {
        match groups_text(s, true) {
            Some(g) => if g.len() == 8 {
                Some(g)
            } else {
                None
            },
            None => None,
        }
    } else {
        match (groups_text(s.take(d), false), groups_text(s.skip(d + 2), true)) {
            (Some(a), Some(b)) => if a.len() + b.len() <= 7 {
                Some(a + Seq::new((8 - a.len() - b.len()) as nat, |i: int| 0u16) + b)
            } else {
                None
            },
            _ => None,
        }
    }
}

/// The octets of a version 6 address in text form.
pub open spec fn ipv6_text(s: Seq<char>) -> Option<Seq<u8>> {
    match ipv6_groups(s) {
        Some(g) => Some(group_octets(g)),
        None => None,
    }
}

fn parse_ipv6_groups(s: &[char]) -> (r: Option<Vec<u16>>)
    ensures
        match r {
            Some(g) => ipv6_groups(s@) == Some(g@) && g@.len() == 8,
            None => ipv6_groups(s@) is None,
        },
{
    let d: usize = find_double_colon(s);
    if d == s.len() {
        return match parse_groups(s, true) {
            Some(g) => if g.len() == 8 {
                Some(g)
            } else {
                None
            },
            None => None,
        };
    }
    let left: &[char] = slice_subrange(s, 0, d);
    let right: &[char] = slice_subrange(s, d + 2, s.len());
    assert(left@ =~= s@.take(d as int));
    assert(right@ =~= s@.skip(d + 2));
    match (parse_groups(left, false), parse_groups(right, true)) {
        (Some(a), Some(b)) => {
            if a.len() > 7 || b.len() > 7 - a.len() {
                return None;
            }
            let ghost zeros = Seq::new((8 - a@.len() - b@.len()) as nat, |i: int| 0u16);
            let mut out: Vec<u16> = a;
            let gap: usize = 8 - out.len() - b.len();
            let ghost a0 = out@;
            let mut k: usize = 0;
            assert(out@ =~= a0 + zeros.take(0));
            while k < gap
                invariant
                    k <= gap,
                    gap == zeros.len(),
                    forall|i: int| 0 <= i < gap ==> zeros[i] == 0,
                    out@ == a0 + zeros.take(k as int),
                decreases gap - k,
            {
                out.push(0u16);
                k = k + 1;
                assert(out@ =~= a0 + zeros.take(k as int));
            }
            assert(zeros.take(gap as int) =~= zeros);
            let ghost head = out@;
            let mut j: usize = 0;
            assert(b@.take(0) =~= seq![]);
            assert(out@ =~= head + b@.take(0));
            while j < b.len()
                invariant
                    j <= b@.len(),
                    out@ == head + b@.take(j as int),
                decreases b@.len() - j,
            {
                out.push(b[j]);
                j = j + 1;
                assert(out@ =~= head + b@.take(j as int));
            }
            assert(b@.take(j as int) =~= b@);
            assert(out@ =~= a0 + zeros + b@);
            Some(out)
        },
        _ => None,
    }
}

proof fn lemma_group_octets(g: Seq<u16>)
    ensures
        group_octets(g).len() == 2 * g.len(),
        forall|i: int| 0 <= i < g.len() ==> u16_at(group_octets(g), 2 * i) == #[trigger] g[i],
        forall|i: int| 0 <= i < g.len() ==> group_octets(g)[2 * i] == (#[trigger] g[i] / 256) as u8 && group_octets(g)[2
            * i + 1] == (g[i] % 256) as u8,
    decreases g.len(),
{
    if g.len() > 0 {
        let t = g.drop_last();
        lemma_group_octets(t);
        assert forall|i: int| 0 <= i < g.len() implies u16_at(group_octets(g), 2 * i) == #[trigger] g[i]
            && group_octets(g)[2 * i] == (g[i] / 256) as u8 && group_octets(g)[2 * i + 1] == (g[i] % 256) as u8 by {
            if i < t.len() {
                assert(g[i] == t[i]);
                assert(group_octets(g)[2 * i] == group_octets(t)[2 * i]);
                assert(group_octets(g)[2 * i + 1] == group_octets(t)[2 * i + 1]);
            }
        }
    }
}

/// Reads a version 6 address.
pub fn parse_ipv6(s: &[char]) -> (r: Option<[u8; 16]>)
    ensures
        match r {
            Some(o) => ipv6_text(s@) == Some(o@),
            None => ipv6_text(s@) is None,
        },
{
    match parse_ipv6_groups(s) {
        Some(g) => {
            let mut o: [u8; 16] = [0u8; 16];
            let mut i: usize = 0;
            while i < 8
                invariant
                    i <= 8,
                    g@.len() == 8,
                    forall|j: int| 0 <= j < i ==> o@[2 * j] == (#[trigger] g@[j] / 256) as u8 && o@[2 * j + 1] == (g@[j]
                        % 256) as u8,
                decreases 8 - i,
            {
                let x: u16 = g[i];
                o[2 * i] = (x / 256) as u8;
                o[2 * i + 1] = (x % 256) as u8;
                i = i + 1;
            }
            proof {
                lemma_group_octets(g@);
                assert forall|k: int| 0 <= k < 16 implies o@[k] == group_octets(g@)[k] by {
                    let j = k / 2;
                    let x = g@[j];
                    assert(k == 2 * j || k == 2 * j + 1);
                    assert(o@[2 * j] == (x / 256) as u8 && o@[2 * j + 1] == (x % 256) as u8);
                    assert(group_octets(g@)[2 * j] == (x / 256) as u8);
                    assert(group_octets(g@)[2 * j + 1] == (x % 256) as u8);
                }
                assert(o@ =~= group_octets(g@));
            }
            Some(o)
        },
        None => None,
    }
}

proof fn lemma_groups_text_len(s: Seq<char>)
    ensures
        ipv6_groups(s) matches Some(g) ==> g.len() == 8,
{
}

/// An address in text form has four or sixteen octets.
pub proof fn lemma_ip_lengths(s: Seq<char>)
    ensures
        ipv4_text(s) matches Some(o) ==> o.len() == 4,
        ipv6_text(s) matches Some(o) ==> o.len() == 16,
{
    lemma_groups_text_len(s);
    if ipv6_groups(s) is Some {
        lemma_group_octets(ipv6_groups(s)->0);
    }
}

/// A version 4 or version 6 address in text form.
pub open spec fn ip_text(s: Seq<char>) -> Option<IpView> {
    if ipv4_text(s) is Some {
        Some(IpView::V4(ipv4_text(s)->0))
    } else if ipv6_text(s) is Some {
        Some(IpView::V6(ipv6_text(s)->0))
    } else {
        None
    }
}

/// Reads a version 4 or version 6 address.
pub fn parse_ip(s: &[char]) -> (r: Option<IpAddr>)
    ensures
        opt_ip(r) == ip_text(s@),
{
    match parse_ipv4(s) {
        Some(o) => Some(IpAddr::V4(o)),
        None => match parse_ipv6(s) {
            Some(o) => Some(IpAddr::V6(o)),
            None => None,
        },
    }
}

/// Reads a version 4 or version 6 address.
pub fn parse_ip_str(s: &str) -> (r: Option<IpAddr>)
    ensures
        opt_ip(r) == ip_text(s@),
{
    let c: Vec<char> = chars_of(s);
    parse_ip(c.as_slice())
}

/// A decimal number not above `max` without a sign.
pub open spec fn plain_uint(s: Seq<char>, max: int) -> Option<int> {
    if s.len() > 0 && s[0] == '+' {
        None
    } else {
        uint_text(s, max)
    }
}

fn parse_plain_uint(s: &[char], max: u64) -> (r: Option<u64>)
    ensures
        match r {
            Some(n) => plain_uint(s@, max as int) == Some(n as int),
            None => plain_uint(s@, max as int) is None,
        },
{
    if s.len() > 0 && s[0] == '+' {
        None
    } else {
        parse_uint(s, max)
    }
}

/// `a.b.c.d:port`.
pub open spec fn socket_v4_text(s: Seq<char>) -> Option<SocketView> {
    let i = until(s, ':');
    if i < s.len() && ipv4_text(s.take(i)) is Some && plain_uint(s.skip(i + 1), 65535) is Some {
        Some(SocketView::V4(ipv4_text(s.take(i))->0, (plain_uint(s.skip(i + 1), 65535)->0) as u16))
    } else {
        None
    }
}

/// An address with an optional `%scope`.
pub open spec fn scoped_v6(s: Seq<char>) -> Option<(Seq<u8>, u32)> {
    let i = until(s, '%');
    if ipv6_text(s.take(i)) is None {
        None
    } else if i == s.len() {
        Some((ipv6_text(s.take(i))->0, 0))
    } else if plain_uint(s.skip(i + 1), 0xffff_ffff) is Some {
        Some((ipv6_text(s.take(i))->0, (plain_uint(s.skip(i + 1), 0xffff_ffff)->0) as u32))
    } else {
        None
    }
}

/// `[address]:port` or `[address%scope]:port`.
pub open spec fn socket_v6_text(s: Seq<char>) -> Option<SocketView> {
    let i = until(s, ']');
    if s.len() > 0 && s[0] == '[' && i + 1 < s.len() && s[i + 1] == ':' && scoped_v6(s.subrange(1, i)) is Some
        && plain_uint(s.skip(i + 2), 65535) is Some {
        let a = scoped_v6(s.subrange(1, i))->0;
        Some(SocketView::V6(a.0, (plain_uint(s.skip(i + 2), 65535)->0) as u16, a.1))
    } else {
        None
    }
}

/// A socket address in text form.
pub open spec fn socket_text(s: Seq<char>) -> Option<SocketView> {
    if socket_v4_text(s) is Some {
        socket_v4_text(s)
    } else {
        socket_v6_text(s)
    }
}

fn parse_socket_v4(s: &[char]) -> (r: Option<SocketAddr>)
    ensures
        opt_socket(r) == socket_v4_text(s@),
{
    let i: usize = find_char(s, ':');
    if i == s.len() {
        return None;
    }
    let host: &[char] = slice_subrange(s, 0, i);
    let port: &[char] = slice_subrange(s, i + 1, s.len());
    assert(host@ =~= s@.take(i as int));
    assert(port@ =~= s@.skip(i + 1));
    match (parse_ipv4(host), parse_plain_uint(port, 65535)) {
        (Some(o), Some(p)) => Some(SocketAddr::V4(o, p as u16)),
        _ => None,
    }
}

fn parse_scoped_v6(s: &[char]) -> (r: Option<([u8; 16], u32)>)
    ensures
        match r {
            Some(x) => scoped_v6(s@) == Some((x.0@, x.1)),
            None => scoped_v6(s@) is None,
        },
{
    let i: usize = find_char(s, '%');
    let host: &[char] = slice_subrange(s, 0, i);
    assert(host@ =~= s@.take(i as int));
    match parse_ipv6(host) {
        None => None,
        Some(o) => {
            if i == s.len() {
                return Some((o, 0));
            }
            let scope: &[char] = slice_subrange(s, i + 1, s.len());
            assert(scope@ =~= s@.skip(i + 1));
            match parse_plain_uint(scope, 0xffff_ffff) {
                Some(n) => Some((o, n as u32)),
                None => None,
            }
        },
    }
}

/// Reads a socket address.
pub fn parse_socket(s: &[char]) -> (r: Option<SocketAddr>)
    ensures
        opt_socket(r) == socket_text(s@),
{
    match parse_socket_v4(s) {
        Some(a) => {
            return Some(a);
        },
        None => {},
    }
    let i: usize = find_char(s, ']');
    if s.len() == 0 || s[0] != '[' || i == s.len() || i + 1 == s.len() || s[i + 1] != ':' {
        return None;
    }
    assert(i > 0) by {
        lemma_until_bounds(s@, ']');
    }
    let inner: &[char] = slice_subrange(s, 1, i);
    let port: &[char] = slice_subrange(s, i + 2, s.len());
    assert(port@ =~= s@.skip(i + 2));
    match (parse_scoped_v6(inner), parse_plain_uint(port, 65535)) {
        (Some(a), Some(p)) => Some(SocketAddr::V6(a.0, p as u16, a.1)),
        _ => None,
    }
}

/// Four octets in decimal, joined by dots.
pub open spec fn ipv4_format(o: Seq<u8>) -> Seq<char> {
    decimal(o[0] as nat) + seq!['.'] + decimal(o[1] as nat) + seq!['.'] + decimal(o[2] as nat) + seq!['.'] + decimal(
        o[3] as nat,
    )
}

/// Appends a version 4 address.
pub fn push_ipv4(out: &mut Vec<char>, o: &[u8; 4])
    ensures
        final(out)@ == old(out)@ + ipv4_format(o@),
{
    push_decimal(out, o[0] as u64);
    out.push('.');
    push_decimal(out, o[1] as u64);
    out.push('.');
    push_decimal(out, o[2] as u64);
    out.push('.');
    push_decimal(out, o[3] as u64);
    assert(out@ =~= old(out)@ + ipv4_format(o@));
}

/// The hexadecimal digit with value `n`, in lower case.
pub open spec fn hex_char(n: int) -> char {
    if n < 10 {
        ('0' as u32 + n) as char
    } else {
        ('a' as u32 + n - 10) as char
    }
}

/// The hexadecimal digits of a number in lower case, without leading zeros.
pub open spec fn hex_format(n: nat) -> Seq<char>
    decreases n,
{
    if n < 16 {
        seq![hex_char(n as int)]
    } else {
        hex_format(n / 16).push(hex_char((n % 16) as int))
    }
}

fn push_hex(out: &mut Vec<char>, n: u16)
    ensures
        final(out)@ == old(out)@ + hex_format(n as nat),
    decreases n,
{
    if n >= 16 {
        push_hex(out, n / 16);
    }
    let d: u8 = (n % 16) as u8;
    let c: u8 = if d < 10 {
        48 + d
    } else {
        87 + d
    };
    out.push(c as char);
    assert(out@ =~= old(out)@ + hex_format(n as nat));
}

/// The groups of sixteen octets.
pub open spec fn octet_groups(o: Seq<u8>) -> Seq<u16> {
    Seq::new(8, |i: int| u16_at(o, 2 * i) as u16)
}

/// The number of zero groups in a row that start at `i`.
pub open spec fn zero_run(g: Seq<u16>, i: int) -> int
    decreases g.len() - i,
{
    if 0 <= i < g.len() && g[i] == 0 {
        1 + zero_run(g, i + 1)
    } else {
        0
    }
}

/// Of the starts below `n`, the first with the longest run of zero groups.
pub open spec fn longest_run(g: Seq<u16>, n: int) -> int
    decreases n,
{
    if n <= 1 {
        0
    } else {
        let b = longest_run(g, n - 1);
        if zero_run(g, n - 1) > zero_run(g, b) {
            n - 1
        } else {
            b
        }
    }
}

/// Groups `i` up to `j` in hexadecimal, joined by colons.
pub open spec fn join_groups(g: Seq<u16>, i: int, j: int) -> Seq<char>
    decreases j - i,
{
    if i >= j {
        seq![]
    } else if i + 1 == j {
        hex_format(g[i] as nat)
    } else {
        join_groups(g, i, j - 1) + seq![':'] + hex_format(g[j - 1] as nat)
    }
}

/// True for `::ffff:0:0/96`, the version 4 addresses within version 6.
pub open spec fn is_v4_mapped(o: Seq<u8>) -> bool {
    (forall|i: int| 0 <= i < 10 ==> o[i] == 0) && o[10] == 255 && o[11] == 255
}

/// The canonical text of a version 6 address: the first longest run of at least two zero groups is
/// written `::`, and a mapped version 4 address keeps its dots.
pub open spec fn ipv6_format(o: Seq<u8>) -> Seq<char> {
    if is_v4_mapped(o) {
        seq![':', ':', 'f', 'f', 'f', 'f', ':'] + ipv4_format(o.skip(12))
    } else {
        let g = octet_groups(o);
        let s = longest_run(g, 8);
        let n = zero_run(g, s);
        if n > 1 {
            join_groups(g, 0, s) + seq![':', ':'] + join_groups(g, s + n, 8)
        } else {
            join_groups(g, 0, 8)
        }
    }
}

fn count_zero_run(g: &[u16; 8], i: usize) -> (r: usize)
    requires
        i <= 8,
    ensures
        r == zero_run(g@, i as int),
        i + r <= 8,
{
    let mut n: usize = 0;
    while i + n < 8 && g[i + n] == 0
        invariant
            i + n <= 8,
            zero_run(g@, i as int) == n + zero_run(g@, i + n),
        decreases 8 - n,
    {
        n = n + 1;
    }
    n
}

fn push_groups(out: &mut Vec<char>, g: &[u16; 8], i: usize, j: usize)
    requires
        i <= j <= 8,
    ensures
        final(out)@ == old(out)@ + join_groups(g@, i as int, j as int),
{
    let mut k: usize = i;
    assert(join_groups(g@, i as int, i as int) =~= seq![]);
    assert(out@ =~= old(out)@ + join_groups(g@, i as int, k as int));
    while k < j
        invariant
            i <= k <= j <= 8,
            out@ == old(out)@ + join_groups(g@, i as int, k as int),
        decreases j - k,
    {
        if k > i {
            out.push(':');
        }
        push_hex(out, g[k]);
        k = k + 1;
        assert(out@ =~= old(out)@ + join_groups(g@, i as int, k as int));
    }
}

fn v4_mapped(o: &[u8; 16]) -> (r: bool)
    ensures
        r == is_v4_mapped(o@),
{
    let mut i: usize = 0;
    while i < 10
        invariant
            i <= 10,
            forall|j: int| 0 <= j < i ==> o@[j] == 0,
        decreases 10 - i,
    {
        if o[i] != 0 {
            return false;
        }
        i = i + 1;
    }
    o[10] == 255 && o[11] == 255
}

/// Appends the canonical text of a version 6 address.
pub fn push_ipv6(out: &mut Vec<char>, o: &[u8; 16])
    ensures
        final(out)@ == old(out)@ + ipv6_format(o@),
{
    if v4_mapped(o) {
        let t: [u8; 4] = [o[12], o[13], o[14], o[15]];
        assert(t@ =~= o@.skip(12));
        out.push(':');
        out.push(':');
        out.push('f');
        out.push('f');
        out.push('f');
        out.push('f');
        out.push(':');
        push_ipv4(out, &t);
        assert(out@ =~= old(out)@ + ipv6_format(o@));
        return;
    }
    let mut g: [u16; 8] = [0u16; 8];
    let mut i: usize = 0;
    while i < 8
        invariant
            i <= 8,
            forall|j: int| 0 <= j < i ==> g@[j] == u16_at(o@, 2 * j) as u16,
        decreases 8 - i,
    {
        g[i] = (o[2 * i] as u16) * 256 + o[2 * i + 1] as u16;
        i = i + 1;
    }
    assert(g@ =~= octet_groups(o@));
    let mut best: usize = 0;
    let mut len: usize = count_zero_run(&g, 0);
    let mut k: usize = 1;
    while k < 8
        invariant
            1 <= k <= 8,
            best < 8,
            best == longest_run(g@, k as int),
            len == zero_run(g@, best as int),
            best + len <= 8,
        decreases 8 - k,
    {
        let n: usize = count_zero_run(&g, k);
        if n > len {
            best = k;
            len = n;
        }
        k = k + 1;
    }
    if len > 1 {
        push_groups(out, &g, 0, best);
        out.push(':');
        out.push(':');
        push_groups(out, &g, best + len, 8);
    } else {
        push_groups(out, &g, 0, 8);
    }
    assert(out@ =~= old(out)@ + ipv6_format(o@));
}

/// The text of an address.
pub open spec fn ip_format(a: IpView) -> Seq<char> {
    match a {
        IpView::V4(o) => ipv4_format(o),
        IpView::V6(o) => ipv6_format(o),
    }
}

/// Appends the text of an address.
pub fn push_ip(out: &mut Vec<char>, a: &IpAddr)
    ensures
        final(out)@ == old(out)@ + ip_format(a@),
{
    match a {
        IpAddr::V4(o) => push_ipv4(out, o),
        IpAddr::V6(o) => push_ipv6(out, o),
    }
}

/// The text of an address.
pub fn ip_string(a: &IpAddr) -> (r: String)
    ensures
        r@ == ip_format(a@),
{
    let mut out: Vec<char> = Vec::new();
    push_ip(&mut out, a);
    assert(out@ =~= ip_format(a@));
    string_of(out.as_slice())
}

/// The text of a socket address: a version 6 address stands in brackets, with its scope where that
/// is not zero.
pub open spec fn socket_format(a: SocketView) -> Seq<char> {
    match a {
        SocketView::V4(o, p) => ipv4_format(o) + seq![':'] + decimal(p as nat),
        SocketView::V6(o, p, s) => if s == 0 {
            seq!['['] + ipv6_format(o) + seq![']', ':'] + decimal(p as nat)
        } else {
            seq!['['] + ipv6_format(o) + seq!['%'] + decimal(s as nat) + seq![']', ':'] + decimal(p as nat)
        },
    }
}

/// The text of a socket address.
pub fn socket_string(a: &SocketAddr) -> (r: String)
    ensures
        r@ == socket_format(a@),
{
    let mut out: Vec<char> = Vec::new();
    match a {
        SocketAddr::V4(o, p) => {
            push_ipv4(&mut out, o);
            out.push(':');
            push_decimal(&mut out, *p as u64);
        },
        SocketAddr::V6(o, p, s) => {
            out.push('[');
            push_ipv6(&mut out, o);
            if *s != 0 {
                out.push('%');
                push_decimal(&mut out, *s as u64);
            }
            out.push(']');
            out.push(':');
            push_decimal(&mut out, *p as u64);
        },
    }
    assert(out@ =~= socket_format(a@));
    string_of(out.as_slice())
}

/// The pieces of `x`, a separator and `y` are `x` and the pieces of `y`, where `x` holds none.
pub proof fn lemma_pieces_cons<T>(x: Seq<T>, c: T, y: Seq<T>)
    requires
        forall|i: int| 0 <= i < x.len() ==> x[i] != c,
    ensures
        pieces(x + seq![c] + y, c) == seq![x] + pieces(y, c),
{
    let s = x + seq![c] + y;
    lemma_until_is(s, c, x.len() as int);
    assert(s.take(x.len() as int) =~= x);
    assert(s.skip(x.len() as int + 1) =~= y);
}

/// A text without separators is its only piece.
pub proof fn lemma_pieces_one<T>(x: Seq<T>, c: T)
    requires
        forall|i: int| 0 <= i < x.len() ==> x[i] != c,
    ensures
        pieces(x, c) == seq![x],
{
    lemma_until_is(x, c, x.len() as int);
}

proof fn lemma_octet_text(n: u8)
    ensures
        octet_text(decimal(n as nat)) == Some(n),
        forall|i: int| 0 <= i < decimal(n as nat).len() ==> decimal(n as nat)[i] != '.',
{
    let d = decimal(n as nat);
    lemma_decimal_value(n as nat);
    reveal_with_fuel(decimal, 4);
    assert forall|i: int| 0 <= i < d.len() implies d[i] != '.' by {
        assert(is_digit(d[i]));
    }
}

/// Reading the text of a version 4 address gives the address back.
pub proof fn law_ipv4_roundtrip(o: Seq<u8>)
    requires
        o.len() == 4,
    ensures
        ipv4_text(ipv4_format(o)) == Some(o),
{
    lemma_octet_text(o[0]);
    lemma_octet_text(o[1]);
    lemma_octet_text(o[2]);
    lemma_octet_text(o[3]);
    let d3 = decimal(o[3] as nat);
    let d2 = decimal(o[2] as nat);
    let d1 = decimal(o[1] as nat);
    let d0 = decimal(o[0] as nat);
    lemma_pieces_one(d3, '.');
    lemma_pieces_cons(d2, '.', d3);
    let t2 = d2 + seq!['.'] + d3;
    lemma_pieces_cons(d1, '.', t2);
    let t1 = d1 + seq!['.'] + t2;
    lemma_pieces_cons(d0, '.', t1);
    assert(d0 + seq!['.'] + t1 =~= ipv4_format(o));
    let p = pieces(ipv4_format(o), '.');
    assert(p =~= seq![d0, d1, d2, d3]);
    assert(p[0] == d0 && p[1] == d1 && p[2] == d2 && p[3] == d3);
    assert(ipv4_text(ipv4_format(o))->0 =~= o);
}

} // verus!
