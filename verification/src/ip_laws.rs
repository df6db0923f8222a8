//! Written addresses are read back as they were.

use vstd::prelude::*;

use crate::address::{address_format, address_text, AddressError, AddressView};
use crate::ip::{
    double_colon, group_octets, group_text, groups_of, groups_text, hex_char, hex_format, hex_number, hex_value,
    ipv4_format, ipv4_text, ipv6_format, ipv6_groups, ipv6_text, is_v4_mapped, join_groups, law_ipv4_roundtrip,
    lemma_pieces_cons, lemma_pieces_one, longest_run, octet_groups, octet_text, plain_uint, scoped_v6, socket_format,
    socket_text, socket_v4_text, zero_run, SocketView,
};
use crate::seqs::{lemma_last_index_is, lemma_until_bounds, lemma_until_is, pieces, until};
use crate::text::{decimal, is_digit, law_decimal_roundtrip, lemma_decimal_value, strip_plus};
use crate::wire::{be16, u16_at};

verus! {

proof fn lemma_hex_char(n: int)
    requires
        0 <= n < 16,
    ensures
        hex_value(hex_char(n)) == n,
{
}

proof fn lemma_hex_format(n: nat)
    ensures
        hex_format(n).len() >= 1,
        n < 0x10 ==> hex_format(n).len() == 1,
        n < 0x100 ==> hex_format(n).len() <= 2,
        n < 0x1000 ==> hex_format(n).len() <= 3,
        n < 0x1_0000 ==> hex_format(n).len() <= 4,
        hex_number(hex_format(n)) == n,
        forall|i: int| 0 <= i < hex_format(n).len() ==> hex_value(#[trigger] hex_format(n)[i]) >= 0,
    decreases n,
{
    let s = hex_format(n);
    if n < 16 {
        lemma_hex_char(n as int);
        assert(s.drop_last() =~= seq![]);
        assert(hex_number(s.drop_last()) == 0);
    } else {
        lemma_hex_format(n / 16);
        lemma_hex_char((n % 16) as int);
        assert(s.drop_last() =~= hex_format(n / 16));
        assert(n == n / 16 * 16 + n % 16);
        assert forall|i: int| 0 <= i < s.len() implies hex_value(#[trigger] s[i]) >= 0 by {
            if i < s.len() - 1 {
                assert(s[i] == hex_format(n / 16)[i]);
            }
        }
    }
}

proof fn lemma_group(x: u16)
    ensures
        group_text(hex_format(x as nat)) == Some(x),
        forall|i: int| 0 <= i < hex_format(x as nat).len() ==> #[trigger] hex_format(x as nat)[i] != ':',
{
    lemma_hex_format(x as nat);
    let s = hex_format(x as nat);
    assert forall|i: int| 0 <= i < s.len() implies #[trigger] s[i] != ':' by {
        assert(hex_value(s[i]) >= 0);
    }
}

proof fn lemma_pieces_snoc<T>(x: Seq<T>, c: T, y: Seq<T>)
    requires
        forall|i: int| 0 <= i < y.len() ==> y[i] != c,
    ensures
        pieces(x + seq![c] + y, c) == pieces(x, c).push(y),
    decreases x.len(),
{
    let s = x + seq![c] + y;
    let i = until(x, c);
    lemma_until_bounds(x, c);
    if i == x.len() {
        lemma_pieces_cons(x, c, y);
        lemma_pieces_one(y, c);
        lemma_pieces_one(x, c);
        assert(pieces(s, c) =~= pieces(x, c).push(y));
    } else {
        assert forall|j: int| 0 <= j < i implies s[j] != c by {
            assert(s[j] == x[j]);
        }
        assert(s[i] == x[i]);
        lemma_until_is(s, c, i);
        let t = x.skip(i + 1);
        assert(s.take(i) =~= x.take(i));
        assert(s.skip(i + 1) =~= t + seq![c] + y);
        lemma_pieces_snoc(t, c, y);
        assert(pieces(s, c) =~= pieces(x, c).push(y));
    }
}

/// What `join_groups` writes: digits and single colons, with digits at both ends.
spec fn joined(s: Seq<char>) -> bool {
    &&& s.len() > 0
    &&& s[0] != ':'
    &&& s.last() != ':'
    &&& forall|k: int| 0 <= k < s.len() ==> hex_value(#[trigger] s[k]) >= 0 || s[k] == ':'
    &&& forall|k: int| 0 <= k && k + 1 < s.len() ==> !(#[trigger] s[k] == ':' && s[k + 1] == ':')
}

proof fn lemma_join(g: Seq<u16>, i: int, j: int, v4_ok: bool)
    requires
        0 <= i < j <= g.len(),
    ensures
        joined(join_groups(g, i, j)),
        groups_of(pieces(join_groups(g, i, j), ':'), v4_ok) == Some(g.subrange(i, j)),
    decreases j - i,
{
    let s = join_groups(g, i, j);
    let last = hex_format(g[j - 1] as nat);
    lemma_group(g[j - 1]);
    lemma_hex_format(g[j - 1] as nat);
    if i + 1 == j {
        lemma_pieces_one(s, ':');
        let p = pieces(s, ':');
        assert(p =~= seq![last]);
        assert(p.drop_last() =~= seq![]);
        assert(groups_of(p.drop_last(), false) == Some(Seq::<u16>::empty()));
        assert(g.subrange(i, j) =~= Seq::<u16>::empty().push(g[i]));
    } else {
        let front = join_groups(g, i, j - 1);
        lemma_join(g, i, j - 1, false);
        lemma_pieces_snoc(front, ':', last);
        let p = pieces(s, ':');
        assert(p.drop_last() =~= pieces(front, ':'));
        assert(p.last() == last);
        assert(g.subrange(i, j) =~= g.subrange(i, j - 1).push(g[j - 1]));
        assert forall|k: int| 0 <= k < s.len() implies hex_value(#[trigger] s[k]) >= 0 || s[k] == ':' by {
            if k < front.len() {
                assert(s[k] == front[k]);
            } else if k > front.len() {
                assert(s[k] == last[k - front.len() - 1]);
            }
        }
        assert forall|k: int| 0 <= k && k + 1 < s.len() implies !(#[trigger] s[k] == ':' && s[k + 1] == ':') by {
            if k + 1 < front.len() {
                assert(s[k] == front[k] && s[k + 1] == front[k + 1]);
            } else if k + 1 == front.len() {
                assert(s[k] == front.last());
            } else {
                assert(s[k + 1] == last[k - front.len()]);
            }
        }
        assert(s[0] == front[0]);
        assert(s.last() == last.last());
    }
}

proof fn lemma_double_colon_is(s: Seq<char>, i: int)
    requires
        0 <= i <= s.len(),
        i < s.len() ==> i + 2 <= s.len() && s[i] == ':' && s[i + 1] == ':',
        forall|k: int| 0 <= k < i && k + 1 < s.len() ==> !(#[trigger] s[k] == ':' && s[k + 1] == ':'),
    ensures
        double_colon(s) == i,
    decreases i,
{
    if s.len() >= 2 && i > 0 {
        assert(!(s[0] == ':' && s[1] == ':'));
        let t = s.drop_first();
        assert forall|k: int| 0 <= k < i - 1 && k + 1 < t.len() implies !(#[trigger] t[k] == ':' && t[k + 1] == ':') by {
            assert(t[k] == s[k + 1] && t[k + 1] == s[k + 2]);
        }
        lemma_double_colon_is(t, i - 1);
    }
}

proof fn lemma_zero_run(g: Seq<u16>, i: int)
    requires
        0 <= i <= g.len(),
    ensures
        0 <= zero_run(g, i) <= g.len() - i,
        forall|k: int| i <= k < i + zero_run(g, i) ==> g[k] == 0,
    decreases g.len() - i,
{
    if i < g.len() && g[i] == 0 {
        lemma_zero_run(g, i + 1);
    }
}

proof fn lemma_longest_run(g: Seq<u16>, n: int)
    requires
        1 <= n <= g.len(),
    ensures
        0 <= longest_run(g, n) < n,
    decreases n,
{
    if n > 1 {
        lemma_longest_run(g, n - 1);
    }
}

proof fn lemma_groups_read(o: Seq<u8>, k: int)
    requires
        o.len() == 16,
        0 <= k <= 8,
    ensures
        group_octets(octet_groups(o).take(k)) == o.take(2 * k),
    decreases k,
{
    let g = octet_groups(o);
    if k == 0 {
        assert(g.take(0) =~= seq![]);
        assert(o.take(0) =~= seq![]);
    } else {
        lemma_groups_read(o, k - 1);
        assert(g.take(k).drop_last() =~= g.take(k - 1));
        assert(g.take(k).last() == u16_at(o, 2 * (k - 1)) as u16);
        assert(o.take(2 * k) =~= o.take(2 * (k - 1)) + be16(u16_at(o, 2 * (k - 1)) as u16));
    }
}

/// The characters of a written version 6 address: no bracket and no percent sign is among them.
spec fn v6_char(c: char) -> bool {
    hex_value(c) >= 0 || c == ':' || c == '.'
}

/// A written version 4 address consists of digits and points.
pub proof fn lemma_ipv4_chars(o: Seq<u8>)
    requires
        o.len() == 4,
    ensures
        ipv4_format(o).len() >= 7,
        forall|k: int| 0 <= k < ipv4_format(o).len() ==> is_digit(#[trigger] ipv4_format(o)[k]) || ipv4_format(o)[k]
            == '.',
{
    let a = decimal(o[0] as nat);
    let b = decimal(o[1] as nat);
    let c = decimal(o[2] as nat);
    let d = decimal(o[3] as nat);
    lemma_decimal_value(o[0] as nat);
    lemma_decimal_value(o[1] as nat);
    lemma_decimal_value(o[2] as nat);
    lemma_decimal_value(o[3] as nat);
    let s = ipv4_format(o);
    assert forall|k: int| 0 <= k < s.len() implies is_digit(#[trigger] s[k]) || s[k] == '.' by {
        let x = a.len() as int + 1;
        let y = x + b.len() + 1;
        let z = y + c.len() + 1;
        if k < a.len() {
            assert(s[k] == a[k]);
        } else if x <= k < x + b.len() {
            assert(s[k] == b[k - x]);
        } else if y <= k < y + c.len() {
            assert(s[k] == c[k - y]);
        } else if z <= k {
            assert(s[k] == d[k - z]);
        }
    }
}

proof fn lemma_mapped(o: Seq<u8>)
    requires
        o.len() == 16,
        is_v4_mapped(o),
    ensures
        ipv6_text(ipv6_format(o)) == Some(o),
        forall|k: int| 0 <= k < ipv6_format(o).len() ==> v6_char(#[trigger] ipv6_format(o)[k]),
{
    let v = o.skip(12);
    let t = ipv4_format(v);
    let s = ipv6_format(o);
    let f = seq!['f', 'f', 'f', 'f'];
    law_ipv4_roundtrip(v);
    lemma_ipv4_chars(v);
    lemma_double_colon_is(s, 0);
    assert(s.take(0) =~= seq![]);
    assert(s.skip(2) =~= f + seq![':'] + t);
    lemma_pieces_one(f, ':');
    lemma_pieces_snoc(f, ':', t);
    let p = pieces(s.skip(2), ':');
    assert(p =~= seq![f, t]);
    assert(p.drop_last() =~= seq![f]);
    assert(seq![f].drop_last() =~= seq![]);
    assert(hex_number(f) == 0xffff) by {
        reveal_with_fuel(hex_number, 5);
        assert(f.drop_last() =~= seq!['f', 'f', 'f']);
        assert(f.drop_last().drop_last() =~= seq!['f', 'f']);
        assert(f.drop_last().drop_last().drop_last() =~= seq!['f']);
        assert(f.drop_last().drop_last().drop_last().drop_last() =~= seq![]);
    }
    assert(group_text(f) == Some(0xffffu16));
    reveal_with_fuel(groups_of, 3);
    assert(groups_of(seq![f], false)->0 =~= seq![0xffffu16]);
    assert(group_text(t) is None);
    let b = seq![0xffffu16] + seq![u16_at(v, 0) as u16, u16_at(v, 2) as u16];
    assert(groups_of(p, true) == Some(b));
    let all = Seq::<u16>::empty() + Seq::new(5, |i: int| 0u16) + b;
    assert(ipv6_groups(s)->0 =~= all);
    assert(all =~= octet_groups(o)) by {
        let g = octet_groups(o);
        assert forall|i: int| 0 <= i < 8 implies all[i] == g[i] by {
            if i < 5 {
                assert(o[2 * i] == 0 && o[2 * i + 1] == 0);
            }
        }
    }
    lemma_groups_read(o, 8);
    assert(octet_groups(o).take(8) =~= octet_groups(o));
    assert(o.take(16) =~= o);
    assert forall|k: int| 0 <= k < s.len() implies v6_char(#[trigger] s[k]) by {
        if k >= 7 {
            assert(s[k] == t[k - 7]);
        }
    }
}

/// Reading the text of a version 6 address gives the address back.
pub proof fn law_ipv6_roundtrip(o: Seq<u8>)
    requires
        o.len() == 16,
    ensures
        ipv6_text(ipv6_format(o)) == Some(o),
{
    lemma_ipv6(o);
}

#[verifier::spinoff_prover]
#[verifier::rlimit(40)]
proof fn lemma_ipv6(o: Seq<u8>)
    requires
        o.len() == 16,
    ensures
        ipv6_text(ipv6_format(o)) == Some(o),
        forall|k: int| 0 <= k < ipv6_format(o).len() ==> v6_char(#[trigger] ipv6_format(o)[k]),
{
    if is_v4_mapped(o) {
        lemma_mapped(o);
        return;
    }
    let g = octet_groups(o);
    let s = ipv6_format(o);
    let x = longest_run(g, 8);
    lemma_longest_run(g, 8);
    lemma_zero_run(g, x);
    let n = zero_run(g, x);
    lemma_groups_read(o, 8);
    assert(g.take(8) =~= g);
    assert(o.take(16) =~= o);
    if n <= 1 {
        lemma_join(g, 0, 8, true);
        lemma_double_colon_is(s, s.len() as int);
        assert(g.subrange(0, 8) =~= g);
    } else {
        let a = join_groups(g, 0, x);
        let b = join_groups(g, x + n, 8);
        if x > 0 {
            lemma_join(g, 0, x, false);
        } else {
            assert(g.subrange(0, 0) =~= seq![]);
        }
        if x + n < 8 {
            lemma_join(g, x + n, 8, true);
        } else {
            assert(g.subrange(8, 8) =~= seq![]);
        }
        assert forall|k: int| 0 <= k < a.len() && k + 1 < s.len() implies !(#[trigger] s[k] == ':' && s[k + 1] == ':') by {
            if k + 1 < a.len() {
                assert(s[k] == a[k] && s[k + 1] == a[k + 1]);
            } else {
                assert(s[k] == a.last());
            }
        }
        lemma_double_colon_is(s, a.len() as int);
        assert(s.take(a.len() as int) =~= a);
        assert(s.skip(a.len() as int + 2) =~= b);
        assert(groups_text(a, false) == Some(g.subrange(0, x)));
        assert(groups_text(b, true) == Some(g.subrange(x + n, 8)));
        let zeros = Seq::new(n as nat, |i: int| 0u16);
        assert(g.subrange(0, x) + zeros + g.subrange(x + n, 8) =~= g);
        assert forall|k: int| 0 <= k < s.len() implies v6_char(#[trigger] s[k]) by {
            if k < a.len() {
                assert(s[k] == a[k]);
            } else if k >= a.len() + 2 {
                assert(s[k] == b[k - a.len() - 2]);
            }
        }
    }
}

proof fn lemma_port(p: nat, max: int)
    requires
        p <= max,
    ensures
        plain_uint(decimal(p), max) == Some(p as int),
        forall|k: int| 0 <= k < decimal(p).len() ==> is_digit(#[trigger] decimal(p)[k]),
{
    lemma_decimal_value(p);
    law_decimal_roundtrip(p, max);
    assert(is_digit(decimal(p)[0]));
}

proof fn lemma_ipv4_starts(s: Seq<char>)
    requires
        ipv4_text(s) is Some,
    ensures
        s.len() > 0,
        is_digit(s[0]),
{
    lemma_until_bounds(s, '.');
    let p = pieces(s, '.');
    assert(octet_text(p[0]) is Some);
    assert(p[0] == s.take(until(s, '.')) || p[0] == s);
    assert(is_digit(p[0][0]));
    assert(s[0] == p[0][0]);
}

/// A socket address with as many octets as its version has.
pub open spec fn whole(a: SocketView) -> bool {
    match a {
        SocketView::V4(o, _) => o.len() == 4,
        SocketView::V6(o, _, _) => o.len() == 16,
    }
}

proof fn lemma_socket_v4(o: Seq<u8>, p: u16)
    requires
        o.len() == 4,
    ensures
        socket_text(socket_format(SocketView::V4(o, p))) == Some(SocketView::V4(o, p)),
{
    let s = socket_format(SocketView::V4(o, p));
    let t = ipv4_format(o);
    let d = decimal(p as nat);
    lemma_port(p as nat, 65535);
    law_ipv4_roundtrip(o);
    lemma_ipv4_chars(o);
    assert forall|k: int| 0 <= k < t.len() implies s[k] != ':' by {
        assert(s[k] == t[k]);
    }
    lemma_until_is(s, ':', t.len() as int);
    assert(s.take(t.len() as int) =~= t);
    assert(s.skip(t.len() as int + 1) =~= d);
}

/// What stands between the brackets of a written version 6 socket address.
spec fn inner_text(o: Seq<u8>, scope: u32) -> Seq<char> {
    if scope == 0 {
        ipv6_format(o)
    } else {
        ipv6_format(o) + seq!['%'] + decimal(scope as nat)
    }
}

proof fn lemma_inner(o: Seq<u8>, scope: u32)
    requires
        o.len() == 16,
    ensures
        scoped_v6(inner_text(o, scope)) == Some((o, scope)),
        forall|k: int| 0 <= k < inner_text(o, scope).len() ==> #[trigger] inner_text(o, scope)[k] != ']',
{
    let t = ipv6_format(o);
    let z = decimal(scope as nat);
    let inner = inner_text(o, scope);
    let n = t.len() as int;
    lemma_ipv6(o);
    lemma_port(scope as nat, 0xffff_ffff);
    assert forall|k: int| 0 <= k < n implies inner[k] != '%' by {
        assert(inner[k] == t[k]);
    }
    assert forall|k: int| 0 <= k < inner.len() implies #[trigger] inner[k] != ']' by {
        if k < n {
            assert(inner[k] == t[k]);
        } else if k > n {
            assert(inner[k] == z[k - n - 1]);
        }
    }
    lemma_until_is(inner, '%', n);
    assert(inner.take(n) =~= t);
    if scope != 0 {
        assert(inner.skip(n + 1) =~= z);
    }
}

proof fn lemma_socket_v6(o: Seq<u8>, p: u16, scope: u32)
    requires
        o.len() == 16,
    ensures
        socket_text(socket_format(SocketView::V6(o, p, scope))) == Some(SocketView::V6(o, p, scope)),
{
    let s = socket_format(SocketView::V6(o, p, scope));
    let inner = inner_text(o, scope);
    let d = decimal(p as nat);
    let e = inner.len() as int + 1;
    lemma_inner(o, scope);
    lemma_port(p as nat, 65535);
    assert(s =~= seq!['['] + inner + seq![']', ':'] + d);
    assert forall|k: int| 0 <= k < e implies s[k] != ']' by {
        if k > 0 {
            assert(s[k] == inner[k - 1]);
        }
    }
    assert(s[e] == ']' && s[e + 1] == ':');
    lemma_until_is(s, ']', e);
    assert(s.subrange(1, e) =~= inner);
    assert(s.skip(e + 2) =~= d);
    assert(socket_v4_text(s) is None) by {
        lemma_until_bounds(s, ':');
        let x = s.take(until(s, ':'));
        if ipv4_text(x) is Some {
            lemma_ipv4_starts(x);
            assert(x[0] == s[0]);
        }
    }
}

/// Reading the text of a socket address gives the socket address back.
pub proof fn law_socket_roundtrip(a: SocketView)
    requires
        whole(a),
    ensures
        socket_text(socket_format(a)) == Some(a),
{
    match a {
        SocketView::V4(o, p) => {
            lemma_socket_v4(o, p);
        },
        SocketView::V6(o, p, scope) => {
            lemma_socket_v6(o, p, scope);
        },
    }
}

/// A host that is written without brackets and is no address.
pub open spec fn plain_name(h: Seq<char>) -> bool {
    h.len() > 0 && h[0] != '[' && ipv4_text(h) is None && ipv6_text(h) is None
}

/// Reading the text of a target gives the target back, whether it is an address or a name.
pub proof fn law_address_roundtrip(a: AddressView)
    requires
        match a {
            AddressView::Domain(h, _) => plain_name(h),
            AddressView::Socket(s) => whole(s),
        },
    ensures
        address_text(address_format(a)) == Ok::<AddressView, AddressError>(a),
{
    match a {
        AddressView::Socket(s) => {
            law_socket_roundtrip(s);
        },
        AddressView::Domain(h, p) => {
            let s = address_format(a);
            let d = decimal(p as nat);
            lemma_port(p as nat, 65535);
            law_decimal_roundtrip(p as nat, 65535);
            let n = h.len() as int;
            assert(s[0] == h[0]);
            assert(s[n] == ':');
            assert forall|k: int| n < k < s.len() implies s[k] != ':' by {
                assert(s[k] == d[k - n - 1]);
            }
            lemma_last_index_is(s, ':', n);
            assert(s.take(n) =~= h);
            assert(s.skip(n + 1) =~= d);
            lemma_until_bounds(s, ':');
            let i = until(s, ':');
            assert(i <= n);
            if i < n {
                let rest = s.skip(i + 1);
                assert(rest[n - i - 1] == ':');
                lemma_not_number(rest, n - i - 1);
            }
        },
    }
}

proof fn lemma_not_number(s: Seq<char>, k: int)
    requires
        0 <= k < s.len(),
        s[k] == ':',
    ensures
        plain_uint(s, 65535) is None,
{
    if s[0] != '+' {
        assert(strip_plus(s) == s);
        assert(!is_digit(s[k]));
    }
}

/// Groups of a version 6 address as they are written between colons: one to four hexadecimal digits each.
pub open spec fn are_groups(ps: Seq<Seq<char>>) -> bool {
    forall|i: int|
        0 <= i < ps.len() ==> 1 <= (#[trigger] ps[i]).len() <= 4 && forall|j: int|
            0 <= j < ps[i].len() ==> '0' <= #[trigger] ps[i][j] <= '9' || 'a' <= ps[i][j] <= 'f' || 'A' <= ps[i][j] <= 'F'
}

/// Groups with colons between them.
pub open spec fn colon_joined(ps: Seq<Seq<char>>) -> Seq<char>
    decreases ps.len(),
{
    if ps.len() == 0 {
        seq![]
    } else if ps.len() == 1 {
        ps[0]
    } else {
        ps[0] + seq![':'] + colon_joined(ps.drop_first())
    }
}

/// The numbers of groups.
pub open spec fn group_numbers(ps: Seq<Seq<char>>) -> Seq<u16> {
    Seq::new(ps.len(), |i: int| hex_number(ps[i]) as u16)
}

proof fn lemma_colon_joined(ps: Seq<Seq<char>>)
    requires
        are_groups(ps),
    ensures
        ps.len() > 0 ==> pieces(colon_joined(ps), ':') == ps,
        ps.len() > 0 ==> colon_joined(ps).len() > 0 && colon_joined(ps)[0] != ':' && colon_joined(ps).last() != ':',
        ps.len() == 0 ==> colon_joined(ps).len() == 0,
        forall|k: int|
            0 <= k && k + 1 < colon_joined(ps).len() ==> !(#[trigger] colon_joined(ps)[k] == ':' && colon_joined(ps)[k + 1]
                == ':'),
    decreases ps.len(),
{
    let s = colon_joined(ps);
    if ps.len() > 0 {
        let a = ps[0];
        assert(1 <= a.len());
        assert forall|j: int| 0 <= j < a.len() implies a[j] != ':' by {}
        if ps.len() == 1 {
            lemma_pieces_one(a, ':');
            assert(ps =~= seq![a]);
        } else {
            let t = ps.drop_first();
            assert forall|i: int| 0 <= i < t.len() implies 1 <= (#[trigger] t[i]).len() <= 4 && forall|j: int|
                0 <= j < t[i].len() ==> '0' <= #[trigger] t[i][j] <= '9' || 'a' <= t[i][j] <= 'f' || 'A' <= t[i][j] <= 'F' by {
                assert(t[i] == ps[i + 1]);
            }
            lemma_colon_joined(t);
            let r = colon_joined(t);
            lemma_pieces_cons(a, ':', r);
            assert(seq![a] + t =~= ps);
            let n = a.len() as int;
            assert forall|k: int| 0 <= k && k + 1 < s.len() implies !(#[trigger] s[k] == ':' && s[k + 1] == ':') by {
                if k < n {
                    assert(s[k] == a[k]);
                } else if k == n {
                    assert(s[k + 1] == r[0]);
                } else {
                    assert(s[k] == r[k - n - 1] && s[k + 1] == r[k - n]);
                }
            }
        }
    }
}

proof fn lemma_groups_all(ps: Seq<Seq<char>>, v4_ok: bool)
    requires
        are_groups(ps),
    ensures
        groups_of(ps, v4_ok) == Some(group_numbers(ps)),
    decreases ps.len(),
{
    if ps.len() == 0 {
        assert(group_numbers(ps) =~= seq![]);
    } else {
        let p = ps.drop_last();
        assert forall|i: int| 0 <= i < p.len() implies 1 <= (#[trigger] p[i]).len() <= 4 && forall|j: int|
            0 <= j < p[i].len() ==> '0' <= #[trigger] p[i][j] <= '9' || 'a' <= p[i][j] <= 'f' || 'A' <= p[i][j] <= 'F' by {
            assert(p[i] == ps[i]);
        }
        lemma_groups_all(p, false);
        assert(1 <= ps[ps.len() - 1].len() <= 4);
        assert forall|j: int| 0 <= j < ps.last().len() implies hex_value(#[trigger] ps.last()[j]) >= 0 by {
            assert(ps[ps.len() - 1][j] == ps.last()[j]);
        }
        assert(group_numbers(p).push(hex_number(ps.last()) as u16) =~= group_numbers(ps));
    }
}

/// Eight groups, written in small or capital letters, are an address; fewer or more are none.
pub proof fn law_eight_groups(ps: Seq<Seq<char>>)
    requires
        are_groups(ps),
        ps.len() > 0,
    ensures
        ps.len() == 8 ==> ipv6_groups(colon_joined(ps)) == Some(group_numbers(ps)),
        ps.len() != 8 ==> ipv6_groups(colon_joined(ps)) is None,
{
    lemma_colon_joined(ps);
    lemma_groups_all(ps, true);
    lemma_double_colon_is(colon_joined(ps), colon_joined(ps).len() as int);
}

/// Two colons in a row stand for as many groups of zero as are missing from eight, and for one at least.
pub proof fn law_groups_left_out(a: Seq<Seq<char>>, b: Seq<Seq<char>>)
    requires
        are_groups(a),
        are_groups(b),
    ensures
        a.len() + b.len() <= 7 ==> ipv6_groups(colon_joined(a) + seq![':', ':'] + colon_joined(b)) == Some(
            group_numbers(a) + Seq::new((8 - a.len() - b.len()) as nat, |i: int| 0u16) + group_numbers(b),
        ),
        a.len() + b.len() > 7 ==> ipv6_groups(colon_joined(a) + seq![':', ':'] + colon_joined(b)) is None,
{
    let x = colon_joined(a);
    let y = colon_joined(b);
    let s = x + seq![':', ':'] + y;
    let n = x.len() as int;
    lemma_colon_joined(a);
    lemma_colon_joined(b);
    assert forall|k: int| 0 <= k < n && k + 1 < s.len() implies !(#[trigger] s[k] == ':' && s[k + 1] == ':') by {
        assert(s[k] == x[k]);
        if k + 1 < n {
            assert(s[k + 1] == x[k + 1]);
        } else {
            assert(x[k] == x.last());
        }
    }
    lemma_double_colon_is(s, n);
    assert(s.take(n) =~= x);
    assert(s.skip(n + 2) =~= y);
    if a.len() > 0 {
        lemma_groups_all(a, false);
    } else {
        assert(group_numbers(a) =~= seq![]);
    }
    if b.len() > 0 {
        lemma_groups_all(b, true);
    } else {
        assert(group_numbers(b) =~= seq![]);
    }
}

/// The value of a group counts sixteen for each digit further, and capital letters are as good as small ones.
pub proof fn law_group_value(s: Seq<char>, c: char)
    ensures
        hex_number(s.push(c)) == 16 * hex_number(s) + hex_value(c),
        '0' <= c <= '9' ==> hex_value(c) == c as u32 - 48,
        'a' <= c <= 'f' ==> hex_value(c) == c as u32 - 87,
        'A' <= c <= 'F' ==> hex_value(c) == c as u32 - 55,
        !('0' <= c <= '9' || 'a' <= c <= 'f' || 'A' <= c <= 'F') ==> hex_value(c) == -1,
{
    assert(s.push(c).drop_last() =~= s);
}

proof fn lemma_digits_positive(s: Seq<char>)
    requires
        forall|i: int| 0 <= i < s.len() ==> is_digit(#[trigger] s[i]),
    ensures
        crate::text::digits_value(s) >= 0,
    decreases s.len(),
{
    if s.len() > 0 {
        assert(is_digit(s[s.len() - 1]));
        let t = s.drop_last();
        assert forall|i: int| 0 <= i < t.len() implies is_digit(#[trigger] t[i]) by {
            assert(t[i] == s[i]);
        }
        lemma_digits_positive(t);
    }
}

/// An octet has one to three digits, no zero before others, and is at most 255; anything else is none.
pub proof fn law_octet_form(s: Seq<char>)
    ensures
        s.len() == 0 || s.len() > 3 ==> octet_text(s) is None,
        s.len() > 1 && s[0] == '0' ==> octet_text(s) is None,
        (exists|i: int| 0 <= i < s.len() && !('0' <= #[trigger] s[i] <= '9')) ==> octet_text(s) is None,
        crate::text::digits_value(s) > 255 ==> octet_text(s) is None,
        octet_text(s) matches Some(v) ==> v == crate::text::digits_value(s),
{
    if octet_text(s) is Some {
        lemma_digits_positive(s);
    }
    if exists|i: int| 0 <= i < s.len() && !('0' <= #[trigger] s[i] <= '9') {
        let i = choose|i: int| 0 <= i < s.len() && !('0' <= #[trigger] s[i] <= '9');
        assert(!is_digit(s[i]));
    }
}

/// Four octets with points between them are an address; fewer or more parts are none.
pub proof fn law_four_octets(a: Seq<char>, b: Seq<char>, c: Seq<char>, d: Seq<char>, e: Seq<char>)
    requires
        octet_text(a) is Some,
        octet_text(b) is Some,
        octet_text(c) is Some,
        octet_text(d) is Some,
    ensures
        ipv4_text(a + seq!['.'] + (b + seq!['.'] + (c + seq!['.'] + d))) == Some(
            seq![octet_text(a)->0, octet_text(b)->0, octet_text(c)->0, octet_text(d)->0],
        ),
        ipv4_text(a + seq!['.'] + (b + seq!['.'] + c)) is None,
        ipv4_text(a + seq!['.'] + (b + seq!['.'] + (c + seq!['.'] + (d + seq!['.'] + e)))) is None,
{
    lemma_no_point(a);
    lemma_no_point(b);
    lemma_no_point(c);
    lemma_no_point(d);
    lemma_pieces_one(d, '.');
    lemma_pieces_one(c, '.');
    lemma_pieces_cons(c, '.', d);
    lemma_pieces_cons(b, '.', c + seq!['.'] + d);
    lemma_pieces_cons(a, '.', b + seq!['.'] + (c + seq!['.'] + d));
    assert(seq![a] + (seq![b] + (seq![c] + seq![d])) =~= seq![a, b, c, d]);
    lemma_pieces_cons(b, '.', c);
    lemma_pieces_cons(a, '.', b + seq!['.'] + c);
    let t3 = d + seq!['.'] + e;
    let t2 = c + seq!['.'] + t3;
    let t1 = b + seq!['.'] + t2;
    lemma_pieces_cons(d, '.', e);
    lemma_pieces_cons(c, '.', t3);
    lemma_pieces_cons(b, '.', t2);
    lemma_pieces_cons(a, '.', t1);
    crate::text::lemma_pieces_nonempty(e, '.');
}

proof fn lemma_no_point(s: Seq<char>)
    requires
        octet_text(s) is Some,
    ensures
        forall|i: int| 0 <= i < s.len() ==> s[i] != '.',
{
    assert forall|i: int| 0 <= i < s.len() implies s[i] != '.' by {
        assert(is_digit(s[i]));
    }
}

/// This machine's own addresses are those that begin with 127, and of version 6 only the number one.
pub proof fn law_loopback(o: Seq<u8>, i: int)
    requires
        0 <= i < 15,
    ensures
        o.len() == 4 ==> (crate::ip::is_loopback_ip(crate::ip::IpView::V4(o)) <==> o[0] == 127),
        o.len() == 16 && o[i] != 0 ==> !crate::ip::is_loopback_ip(crate::ip::IpView::V6(o)),
        o.len() == 16 && o[15] != 1 ==> !crate::ip::is_loopback_ip(crate::ip::IpView::V6(o)),
        crate::ip::is_loopback_ip(crate::ip::IpView::V6(Seq::new(16, |k: int| if k == 15 {
            1u8
        } else {
            0u8
        }))),
{
}

} // verus!
