//! Resolving names: queries over a stream, their answers, the cache, and the order in which
//! addresses are tried.

use vstd::prelude::*;
use vstd::utf8::encode_utf8;

use crate::cache::{make_room, with_room, Cached};
use crate::ip::{ip_text, parse_ip, IpAddr, IpView, SocketAddr, SocketView, socket_of};
use crate::seqs::{last_index, lemma_last_index_bounds, pieces};
use crate::table::Table;
use crate::text::{
    chars_of, copy_chars, decimal, law_decimal_roundtrip, lemma_colon_port, parse_uint, rfind_char, split_char, string_of,
    uint_text,
};
use crate::wg_dns::{
    is_name, label_bytes, lemma_record_fields, message_head, name_labels, push_query_head, query_bytes, query_head, questions_bytes,
    record_bytes, records_bytes, whole_records, DnsRecord,
};
use crate::wire::{be16, copy_16, lemma_be16_at, push_bytes, push_u16, read_u16, u16_at};

verus! {

/// How long an answer is kept, in milliseconds.
pub const DNS_CACHE_TTL_MS: u64 = 60_000;

/// How many names the cache holds.
pub const CACHE_MAX_ENTRIES: usize = 8192;

/// How long one attempt to connect may take, in seconds.
pub const PER_ATTEMPT_TIMEOUT_SECS: u64 = 3;

/// How many names are resolved at the same time.
pub const DNS_MAX_CONCURRENT: usize = 128;

/// How long one query over a stream may take, in seconds.
pub const DNS_TCP_TIMEOUT_SECS: u64 = 5;

/// The largest message that a query or an answer can be.
pub const MAX_MESSAGE: usize = 65535;

/// Addresses as the values they stand for.
pub open spec fn ip_views(v: Seq<IpAddr>) -> Seq<IpView> {
    Seq::new(v.len(), |i: int| v[i]@)
}

/// What a target text is split into: the part before the last colon, without square brackets
/// around it, and the port behind it.
pub open spec fn host_and_port(t: Seq<char>) -> Option<(Seq<char>, u16)> {
    let i = last_index(t, ':');
    if i < 0 {
        None
    } else {
        match uint_text(t.skip(i + 1), 65535) {
            None => None,
            Some(p) => Some((unbracketed(t.take(i)), p as u16)),
        }
    }
}

/// A host without the square brackets around it.
pub open spec fn unbracketed(h: Seq<char>) -> Seq<char> {
    if h.len() >= 2 && h[0] == '[' && h.last() == ']' {
        h.subrange(1, h.len() - 1)
    } else {
        h
    }
}

/// Splits a target into host and port.
pub fn split_host_port(target: &str) -> (r: Option<(String, u16)>)
    ensures
        match r {
            Some(x) => host_and_port(target@) == Some((x.0@, x.1)),
            None => host_and_port(target@) is None,
        },
{
    let t: Vec<char> = chars_of(target);
    proof {
        lemma_last_index_bounds(target@, ':');
    }
    match rfind_char(t.as_slice(), ':') {
        None => None,
        Some(i) => {
            let digits: Vec<char> = copy_chars(t.as_slice(), i + 1, t.len());
            assert(digits@ =~= target@.skip(i + 1));
            match parse_uint(digits.as_slice(), 65535) {
                None => None,
                Some(p) => {
                    assert(target@.subrange(0, i as int) =~= target@.take(i as int));
                    let host: Vec<char> = if i >= 2 && t[0] == '[' && t[i - 1] == ']' {
                        copy_chars(t.as_slice(), 1, i - 1)
                    } else {
                        copy_chars(t.as_slice(), 0, i)
                    };
                    assert(host@ =~= unbracketed(target@.take(i as int)));
                    Some((string_of(host.as_slice()), p as u16))
                },
            }
        },
    }
}

/// A text without the characters `c` at its end.
pub open spec fn trim_end_char(s: Seq<char>, c: char) -> Seq<char>
    decreases s.len(),
{
    if s.len() > 0 && s.last() == c {
        trim_end_char(s.drop_last(), c)
    } else {
        s
    }
}

/// The labels `p`, encoded one behind another; `None` where one is empty or longer than 63 bytes.
pub open spec fn strict_labels(p: Seq<Seq<char>>) -> Option<Seq<u8>>
    decreases p.len(),
{
    if p.len() == 0 {
        Some(seq![])
    } else {
        match strict_labels(p.drop_last()) {
            None => None,
            Some(head) => if 0 < encode_utf8(p.last()).len() <= 63 {
                Some(head + label_bytes(p.last()))
            } else {
                None
            },
        }
    }
}

proof fn lemma_strict_prefix(p: Seq<Seq<char>>, n: int)
    requires
        0 <= n <= p.len(),
        strict_labels(p.take(n)) is None,
    ensures
        strict_labels(p) is None,
    decreases p.len(),
{
    if n == p.len() {
        assert(p.take(n) =~= p);
    } else {
        assert(p.drop_last().take(n) =~= p.take(n));
        lemma_strict_prefix(p.drop_last(), n);
    }
}

/// The query for a name, where there is one.
pub open spec fn dns_query(tx: u16, host: Seq<char>, qtype: u16) -> Option<Seq<u8>> {
    match strict_labels(pieces(trim_end_char(host, '.'), '.')) {
        None => None,
        Some(l) => if query_bytes(tx, l, qtype).len() > MAX_MESSAGE {
            None
        } else {
            Some(query_bytes(tx, l, qtype))
        },
    }
}

/// Builds a query for a name and takes the next number for it. There is none for a name with an
/// empty or overlong label.
pub fn build_dns_query(txid: &mut u16, host: &str, qtype: u16) -> (r: Option<Vec<u8>>)
    ensures
        match r {
            Some(q) => dns_query(*old(txid), host@, qtype) == Some(q@),
            None => dns_query(*old(txid), host@, qtype) is None,
        },
        *final(txid) == (*old(txid) + 1) % 65536,
{
    let tx: u16 = *txid;
    *txid = tx.wrapping_add(1);
    let c: Vec<char> = chars_of(host);
    let mut n: usize = c.len();
    assert(host@.take(n as int) =~= host@);
    while n > 0 && c[n - 1] == '.'
        invariant
            n <= c@.len(),
            c@ == host@,
            trim_end_char(host@, '.') == trim_end_char(host@.take(n as int), '.'),
        decreases n,
    {
        assert(host@.take(n as int).drop_last() =~= host@.take(n - 1));
        n = n - 1;
    }
    let base: Vec<char> = copy_chars(c.as_slice(), 0, n);
    assert(base@ =~= host@.take(n as int));
    assert(trim_end_char(host@, '.') == base@);
    let labels: Vec<Vec<char>> = split_char(base.as_slice(), '.');
    let ghost p = pieces(base@, '.');
    let mut q: Vec<u8> = Vec::new();
    push_query_head(&mut q, tx);
    let mut i: usize = 0;
    assert(p.take(0) =~= seq![]);
    assert(q@ =~= query_head(tx) + seq![]);
    while i < labels.len()
        invariant
            p == pieces(base@, '.'),
            base@ == trim_end_char(host@, '.'),
            labels@.len() == p.len(),
            forall|k: int| 0 <= k < labels@.len() ==> (#[trigger] labels@[k])@ == p[k],
            i <= labels@.len(),
            strict_labels(p.take(i as int)) is Some,
            q@ == query_head(tx) + strict_labels(p.take(i as int))->0,
            tx == *old(txid),
            *txid == (*old(txid) + 1) % 65536,
        decreases labels@.len() - i,
    {
        proof {
            assert(labels@[i as int]@ == p[i as int]);
            assert(p.take(i + 1).drop_last() =~= p.take(i as int));
            assert(p.take(i + 1).last() == p[i as int]);
        }
        let text: String = string_of(labels[i].as_slice());
        let b: &[u8] = text.as_str().as_bytes();
        if b.len() == 0 || b.len() > 63 {
            proof {
                lemma_strict_prefix(p, i + 1);
            }
            return None;
        }
        let ghost q0 = q@;
        q.push(b.len() as u8);
        push_bytes(&mut q, b);
        assert(q@ =~= q0 + label_bytes(p[i as int]));
        assert(q@ =~= query_head(tx) + strict_labels(p.take(i + 1))->0);
        i = i + 1;
    }
    assert(p.take(i as int) =~= p);
    let ghost l = strict_labels(p)->0;
    q.push(0);
    push_u16(&mut q, qtype);
    push_u16(&mut q, 1);
    assert(q@ =~= query_bytes(tx, l, qtype));
    if q.len() > MAX_MESSAGE {
        return None;
    }
    Some(q)
}

/// The position behind the name at `pos`, wherever that is: a name that the message cuts off ends
/// where its labels would.
pub open spec fn loose_name_end(b: Seq<u8>, pos: int) -> int
    decreases b.len() - pos,
{
    if pos < 0 || pos >= b.len() {
        pos
    } else if b[pos] == 0 {
        pos + 1
    } else if b[pos] >= 0xc0 {
        pos + 2
    } else if pos + 1 + b[pos] >= b.len() {
        pos + 1 + b[pos]
    } else {
        loose_name_end(b, pos + 1 + b[pos])
    }
}

/// Reading a name never moves backwards and leaves the message by less than one label.
pub proof fn law_loose_name_end(b: Seq<u8>, pos: int)
    requires
        0 <= pos,
    ensures
        pos <= loose_name_end(b, pos),
        loose_name_end(b, pos) <= pos || loose_name_end(b, pos) < b.len() + 256,
    decreases b.len() - pos,
{
    if pos < b.len() && b[pos] != 0 && b[pos] < 0xc0 && pos + 1 + b[pos] < b.len() {
        law_loose_name_end(b, pos + 1 + b[pos]);
    }
}

/// The position behind the name at `pos`.
pub fn skip_name(buf: &[u8], pos: usize) -> (r: usize)
    requires
        buf@.len() + 256 <= usize::MAX,
    ensures
        r == loose_name_end(buf@, pos as int),
{
    let mut p: usize = pos;
    while p < buf.len()
        invariant
            buf@.len() + 256 <= usize::MAX,
            loose_name_end(buf@, pos as int) == loose_name_end(buf@, p as int),
        decreases buf@.len() + 256 - p,
    {
        let n: u8 = buf[p];
        if n == 0 {
            return p + 1;
        }
        if n & 0xC0 == 0xC0 {
            assert(n & 0xC0 == 0xC0 ==> n >= 0xC0) by (bit_vector);
            return p + 2;
        }
        assert(n & 0xC0 != 0xC0 ==> n < 0xC0) by (bit_vector);
        p = p + 1 + n as usize;
    }
    p
}

/// The position behind `n` questions.
pub open spec fn loose_questions(b: Seq<u8>, pos: int, n: nat) -> int
    decreases n,
{
    if n == 0 {
        pos
    } else {
        loose_questions(b, loose_name_end(b, pos) + 4, (n - 1) as nat)
    }
}

/// The address that a record of this type and length holds.
pub open spec fn record_ip(b: Seq<u8>, rtype: int, at: int, len: int) -> Seq<IpView> {
    if rtype == 1 && len == 4 {
        seq![IpView::V4(b.subrange(at, at + 4))]
    } else if rtype == 28 && len == 16 {
        seq![IpView::V6(b.subrange(at, at + 16))]
    } else {
        seq![]
    }
}

/// The addresses of up to `n` records from `pos` on, up to the first one that is cut off.
pub open spec fn answer_ips(b: Seq<u8>, pos: int, n: nat) -> Seq<IpView>
    decreases n,
{
    if n == 0 {
        seq![]
    } else {
        let p = loose_name_end(b, pos);
        if p + 10 > b.len() || p + 10 + u16_at(b, p + 8) > b.len() {
            seq![]
        } else {
            record_ip(b, u16_at(b, p), p + 10, u16_at(b, p + 8)) + answer_ips(
                b,
                p + 10 + u16_at(b, p + 8),
                (n - 1) as nat,
            )
        }
    }
}

/// The addresses that a message gives in answer to the query of this number.
pub open spec fn response_ips(b: Seq<u8>, tx: u16) -> Seq<IpView> {
    if b.len() < 12 || u16_at(b, 0) != tx || b[2] < 0x80 {
        seq![]
    } else {
        answer_ips(b, loose_questions(b, 12, u16_at(b, 4) as nat), u16_at(b, 6) as nat)
    }
}

/// Reads the addresses of an answer. A message that is no answer to the query has none, and
/// reading stops at a record that is cut off.
pub fn parse_answer_ips(resp: &[u8], expect_tx: u16) -> (r: Vec<IpAddr>)
    requires
        resp@.len() + 0x50000 <= usize::MAX,
    ensures
        ip_views(r@) == response_ips(resp@, expect_tx),
{
    let mut ips: Vec<IpAddr> = Vec::new();
    assert(ip_views(ips@) =~= seq![]);
    if resp.len() < 12 {
        return ips;
    }
    let flags: u8 = resp[2];
    assert(flags & 0x80 == 0 <==> flags < 0x80) by (bit_vector);
    if read_u16(resp, 0) != expect_tx || flags & 0x80 == 0 {
        return ips;
    }
    let qd: u16 = read_u16(resp, 4);
    let an: u16 = read_u16(resp, 6);
    let mut pos: usize = 12;
    let mut k: u16 = 0;
    while k < qd
        invariant
            k <= qd,
            resp@.len() >= 12,
            resp@.len() + 0x50000 <= usize::MAX,
            pos <= resp@.len() + 256 + 4 * k,
            loose_questions(resp@, 12, qd as nat) == loose_questions(resp@, pos as int, (qd - k) as nat),
        decreases qd - k,
    {
        proof {
            law_loose_name_end(resp@, pos as int);
        }
        pos = skip_name(resp, pos) + 4;
        k = k + 1;
    }
    let ghost start = pos as int;
    let mut j: u16 = 0;
    let ghost all = answer_ips(resp@, start, an as nat);
    while j < an
        invariant
            j <= an,
            resp@.len() + 0x50000 <= usize::MAX,
            pos <= resp@.len() + 0x40100,
            all == ip_views(ips@) + answer_ips(resp@, pos as int, (an - j) as nat),
            all == response_ips(resp@, expect_tx),
        decreases an - j,
    {
        proof {
            law_loose_name_end(resp@, pos as int);
        }
        let p: usize = skip_name(resp, pos);
        if p + 10 > resp.len() {
            assert(answer_ips(resp@, pos as int, (an - j) as nat) =~= seq![]);
            assert(all =~= ip_views(ips@));
            return ips;
        }
        let rtype: u16 = read_u16(resp, p);
        let len: usize = read_u16(resp, p + 8) as usize;
        let at: usize = p + 10;
        if len > resp.len() - at {
            assert(answer_ips(resp@, pos as int, (an - j) as nat) =~= seq![]);
            assert(all =~= ip_views(ips@));
            return ips;
        }
        let ghost before = ips@;
        let ghost rest = answer_ips(resp@, at + len, (an - j - 1) as nat);
        assert(answer_ips(resp@, pos as int, (an - j) as nat) == record_ip(resp@, rtype as int, at as int, len as int)
            + rest);
        if rtype == 1 && len == 4 {
            let o: [u8; 4] = [resp[at], resp[at + 1], resp[at + 2], resp[at + 3]];
            assert(o@ =~= resp@.subrange(at as int, at + 4));
            ips.push(IpAddr::V4(o));
        } else if rtype == 28 && len == 16 {
            let o: [u8; 16] = copy_16(resp, at);
            ips.push(IpAddr::V6(o));
        }
        assert(ip_views(ips@) =~= ip_views(before) + record_ip(resp@, rtype as int, at as int, len as int));
        assert(all =~= ip_views(ips@) + rest);
        pos = at + len;
        j = j + 1;
    }
    assert(all =~= ip_views(ips@));
    ips
}

/// The addresses with those of version 4 first, each group in its order.
pub open spec fn v4_first(s: Seq<IpView>) -> Seq<IpView> {
    s.filter(|a: IpView| a is V4) + s.filter(|a: IpView| !(a is V4))
}

/// Puts the addresses of version 4 first.
pub fn order_ips(ips: &Vec<IpAddr>) -> (r: Vec<IpAddr>)
    ensures
        ip_views(r@) == v4_first(ip_views(ips@)),
        r@.len() == ips@.len(),
{
    let mut first: Vec<IpAddr> = Vec::new();
    let mut second: Vec<IpAddr> = Vec::new();
    let mut i: usize = 0;
    let ghost s = ip_views(ips@);
    let ghost f4 = |a: IpView| a is V4;
    let ghost f6 = |a: IpView| !(a is V4);
    proof {
        reveal(Seq::filter);
        assert(s.take(0).filter(f4) =~= seq![]);
        assert(s.take(0).filter(f6) =~= seq![]);
        assert(ip_views(first@) =~= seq![]);
        assert(ip_views(second@) =~= seq![]);
    }
    while i < ips.len()
        invariant
            i <= ips@.len(),
            s == ip_views(ips@),
            f4 == |a: IpView| a is V4,
            f6 == |a: IpView| !(a is V4),
            ip_views(first@) == s.take(i as int).filter(f4),
            ip_views(second@) == s.take(i as int).filter(f6),
            first@.len() + second@.len() == i,
        decreases ips@.len() - i,
    {
        let ghost b1 = first@;
        let ghost b2 = second@;
        proof {
            reveal(Seq::filter);
            assert(s.take(i + 1).drop_last() =~= s.take(i as int));
            assert(s.take(i + 1).last() == ips@[i as int]@);
        }
        match ips[i] {
            IpAddr::V4(o) => {
                first.push(IpAddr::V4(o));
                assert(ip_views(first@) =~= ip_views(b1).push(ips@[i as int]@));
            },
            IpAddr::V6(o) => {
                second.push(IpAddr::V6(o));
                assert(ip_views(second@) =~= ip_views(b2).push(ips@[i as int]@));
            },
        }
        i = i + 1;
    }
    assert(s.take(i as int) =~= s);
    let mut k: usize = 0;
    let ghost head = first@;
    assert(ip_views(first@) =~= ip_views(head) + ip_views(second@).take(0));
    while k < second.len()
        invariant
            k <= second@.len(),
            first@.len() == head.len() + k,
            ip_views(first@) == ip_views(head) + ip_views(second@).take(k as int),
        decreases second@.len() - k,
    {
        let ghost b1 = first@;
        let a: IpAddr = second[k];
        first.push(a);
        assert(ip_views(first@) =~= ip_views(b1).push(second@[k as int]@));
        assert(ip_views(second@).take(k + 1) =~= ip_views(second@).take(k as int).push(second@[k as int]@));
        assert(ip_views(first@) =~= ip_views(head) + ip_views(second@).take(k + 1));
        k = k + 1;
    }
    assert(ip_views(second@).take(k as int) =~= ip_views(second@));
    first
}

/// Ordering keeps every address: what was resolved is what is tried.
pub proof fn law_order_keeps(s: Seq<IpView>, a: IpView)
    ensures
        v4_first(s).contains(a) <==> s.contains(a),
{
    let f4 = |x: IpView| x is V4;
    let f6 = |x: IpView| !(x is V4);
    assert(v4_first(s) == s.filter(f4) + s.filter(f6));
    if s.contains(a) {
        let k = s.index_of(a);
        if f4(a) {
            s.lemma_filter_contains(f4, k);
            let i = s.filter(f4).index_of(a);
            assert(v4_first(s)[i] == a);
        } else {
            s.lemma_filter_contains(f6, k);
            let i = s.filter(f6).index_of(a);
            assert(v4_first(s)[s.filter(f4).len() + i] == a);
        }
    }
    if v4_first(s).contains(a) {
        let i = v4_first(s).index_of(a);
        if i < s.filter(f4).len() {
            assert(s.filter(f4)[i] == a);
            s.lemma_filter_contains_rev(f4, a);
        } else {
            assert(s.filter(f6)[i - s.filter(f4).len()] == a);
            s.lemma_filter_contains_rev(f6, a);
        }
    }
}

/// What an answer holds.
pub open spec fn found<E>(a: Result<Vec<IpAddr>, E>) -> Seq<IpAddr> {
    match a {
        Ok(v) => v@,
        Err(_) => seq![],
    }
}

/// The two answers to the queries for a name, put together.
pub open spec fn merged<E>(a: Result<Vec<IpAddr>, E>, aaaa: Result<Vec<IpAddr>, E>) -> Result<Seq<IpAddr>, Option<E>> {
    if found(a).len() + found(aaaa).len() > 0 {
        Ok(found(a) + found(aaaa))
    } else if aaaa is Err {
        Err(Some(aaaa->Err_0))
    } else if a is Err {
        Err(Some(a->Err_0))
    } else {
        Err(None)
    }
}

/// The two answers to the queries for a name, put together: the addresses of version 4, then those
/// of version 6. Where there is none, the last failure, if there was one.
pub fn merge_answers<E>(a: Result<Vec<IpAddr>, E>, aaaa: Result<Vec<IpAddr>, E>) -> (r: Result<
    Vec<IpAddr>,
    Option<E>,
>)
    ensures
        ({
            let x = if a is Ok {
                a->Ok_0@
            } else {
                seq![]
            };
            let y = if aaaa is Ok {
                aaaa->Ok_0@
            } else {
                seq![]
            };
            if x.len() + y.len() > 0 {
                r matches Ok(v) && v@ == x + y
            } else if aaaa is Err {
                r matches Err(Some(e)) && e == aaaa->Err_0
            } else if a is Err {
                r matches Err(Some(e)) && e == a->Err_0
            } else {
                r matches Err(None)
            }
        }),
        match r {
            Ok(v) => merged(a, aaaa) == Ok::<Seq<IpAddr>, Option<E>>(v@),
            Err(e) => merged(a, aaaa) == Err::<Seq<IpAddr>, Option<E>>(e),
        },
{
    let mut ips: Vec<IpAddr> = Vec::new();
    let mut last: Option<E> = None;
    match a {
        Ok(v) => {
            ips = v;
        },
        Err(e) => {
            last = Some(e);
        },
    }
    match aaaa {
        Ok(v) => {
            let mut rest: Vec<IpAddr> = v;
            ips.append(&mut rest);
        },
        Err(e) => {
            last = Some(e);
        },
    }
    if ips.len() == 0 {
        return Err(last);
    }
    Ok(ips)
}

/// The names resolved so far, the server asked for others, and the next query's number.
pub struct Resolver {
    pub tcp: Option<SocketAddr>,
    pub cache: Table<String, Cached<Vec<IpAddr>>>,
    pub next_tx: u16,
}

/// Chooses the server that is asked over a stream. Only the first choice counts.
pub fn set_tcp_resolver(r: &mut Resolver, addr: SocketAddr) -> (set: bool)
    ensures
        set == (old(r).tcp is None),
        final(r).tcp == (if old(r).tcp is None {
            Some(addr)
        } else {
            old(r).tcp
        }),
        final(r).cache == old(r).cache,
        final(r).next_tx == old(r).next_tx,
{
    if r.tcp.is_none() {
        r.tcp = Some(addr);
        true
    } else {
        false
    }
}

/// The addresses of a name that have not expired.
pub open spec fn fresh(m: Map<Seq<char>, Cached<Vec<IpAddr>>>, name: Seq<char>, now_ms: u64) -> Option<Seq<IpAddr>> {
    if m.dom().contains(name) && m[name].expires_ms > now_ms {
        Some(m[name].value@)
    } else {
        None
    }
}

/// Copies addresses.
pub fn copy_ips(v: &Vec<IpAddr>) -> (r: Vec<IpAddr>)
    ensures
        r@ == v@,
{
    let mut out: Vec<IpAddr> = Vec::new();
    let mut i: usize = 0;
    while i < v.len()
        invariant
            i <= v@.len(),
            out@ == v@.take(i as int),
        decreases v@.len() - i,
    {
        out.push(v[i]);
        assert(v@.take(i + 1) =~= v@.take(i as int).push(v@[i as int]));
        i = i + 1;
    }
    assert(v@.take(i as int) =~= v@);
    out
}

/// How a target is reached.
pub enum DialPlan {
    /// The target is no host with a port.
    BadTarget,
    /// The target is an address.
    Address(SocketAddr),
    /// The name is known; these addresses are tried in order.
    Known(Vec<IpAddr>, u16),
    /// The name has to be resolved first.
    Resolve(String, u16),
}

/// How a target is reached, as a value.
pub enum Way {
    BadTarget,
    Address(SocketView),
    Known(Seq<IpAddr>, u16),
    Resolve(Seq<char>, u16),
}

/// A plan as a value.
pub open spec fn way_of(p: DialPlan) -> Way {
    match p {
        DialPlan::BadTarget => Way::BadTarget,
        DialPlan::Address(a) => Way::Address(a@),
        DialPlan::Known(v, p) => Way::Known(v@, p),
        DialPlan::Resolve(h, p) => Way::Resolve(h@, p),
    }
}

/// How a target is reached.
pub open spec fn way(target: Seq<char>, m: Map<Seq<char>, Cached<Vec<IpAddr>>>, now_ms: u64) -> Way {
    match host_and_port(target) {
        None => Way::BadTarget,
        Some(hp) => match ip_text(hp.0) {
            Some(ip) => Way::Address(socket_of(ip, hp.1)),
            None => match fresh(m, hp.0, now_ms) {
                Some(v) => Way::Known(v, hp.1),
                None => Way::Resolve(hp.0, hp.1),
            },
        },
    }
}

impl Resolver {
    /// No name is listed twice.
    pub open spec fn wf(&self) -> bool {
        self.cache.wf()
    }

    /// A resolver that knows no name and uses the system's resolver.
    pub fn new() -> (r: Resolver)
        ensures
            r.wf(),
            r.tcp is None,
            r.next_tx == 1,
            r.cache@ == Map::<Seq<char>, Cached<Vec<IpAddr>>>::empty(),
    {
        Resolver { tcp: None, cache: Table::new(), next_tx: 1 }
    }

    /// The remembered addresses of a name.
    pub fn cached(&self, host: &String, now_ms: u64) -> (r: Option<Vec<IpAddr>>)
        requires
            self.wf(),
        ensures
            match r {
                Some(v) => fresh(self.cache@, host@, now_ms) == Some(v@),
                None => fresh(self.cache@, host@, now_ms) is None,
            },
    {
        match self.cache.get(host) {
            Some(c) => {
                if c.expires_ms > now_ms {
                    Some(copy_ips(&c.value))
                } else {
                    None
                }
            },
            None => None,
        }
    }

    /// Takes in the addresses of a name: they are ordered, remembered and returned. `None` where
    /// there is no address.
    pub fn resolved(&mut self, host: String, ips: &Vec<IpAddr>, now_ms: u64) -> (r: Option<Vec<IpAddr>>)
        requires
            old(self).wf(),
            now_ms + DNS_CACHE_TTL_MS <= u64::MAX,
        ensures
            final(self).wf(),
            final(self).tcp == old(self).tcp,
            final(self).next_tx == old(self).next_tx,
            r is Some <==> ips@.len() > 0,
            match r {
                None => final(self).cache == old(self).cache,
                Some(v) => ip_views(v@) == v4_first(ip_views(ips@)) && fresh(final(self).cache@, host@, now_ms) == Some(
                    v@,
                ) && final(self).cache@[host@].expires_ms == now_ms + DNS_CACHE_TTL_MS && final(self).cache@.remove(
                    host@,
                ) == with_room(old(self).cache@, now_ms, CACHE_MAX_ENTRIES as nat).remove(host@),
            },
    {
        if ips.len() == 0 {
            return None;
        }
        let v: Vec<IpAddr> = order_ips(ips);
        let kept: Vec<IpAddr> = copy_ips(&v);
        make_room(&mut self.cache, now_ms, CACHE_MAX_ENTRIES);
        let ghost room = self.cache@;
        let ghost name = host@;
        self.cache.insert(host, Cached { value: kept, expires_ms: now_ms + DNS_CACHE_TTL_MS });
        assert(self.cache@.remove(name) =~= room.remove(name));
        Some(v)
    }

    /// Decides how a target is reached.
    pub fn plan(&self, target: &str, now_ms: u64) -> (r: DialPlan)
        requires
            self.wf(),
        ensures
            match host_and_port(target@) {
                None => r is BadTarget,
                Some(hp) => match ip_text(hp.0) {
                    Some(ip) => r matches DialPlan::Address(a) && a@ == socket_of(ip, hp.1),
                    None => match fresh(self.cache@, hp.0, now_ms) {
                        Some(v) => r matches DialPlan::Known(ips, p) && ips@ == v && p == hp.1,
                        None => r matches DialPlan::Resolve(h, p) && h@ == hp.0 && p == hp.1,
                    },
                },
            },
            way_of(r) == way(target@, self.cache@, now_ms),
    {
        match split_host_port(target) {
            None => DialPlan::BadTarget,
            Some(hp) => {
                let c: Vec<char> = chars_of(hp.0.as_str());
                match parse_ip(c.as_slice()) {
                    Some(ip) => DialPlan::Address(SocketAddr::new(ip, hp.1)),
                    None => {
                        match self.cached(&hp.0, now_ms) {
                            Some(v) => DialPlan::Known(v, hp.1),
                            None => DialPlan::Resolve(hp.0, hp.1),
                        }
                    },
                }
            },
        }
    }
}

/// The addresses still to be tried and the last failure.
pub struct Dial<E> {
    pub ips: Vec<IpAddr>,
    pub port: u16,
    pub next: usize,
    pub last: Option<E>,
}

/// What is done next to connect.
pub enum DialStep<E> {
    /// Try this address.
    Try(SocketAddr),
    /// Every address failed, the last one like this.
    Failed(Option<E>),
}

impl<E> Dial<E> {
    /// The next address is one of the list or the end of it.
    pub open spec fn wf(&self) -> bool {
        self.next <= self.ips@.len()
    }

    /// Nothing tried yet.
    pub fn new(ips: Vec<IpAddr>, port: u16) -> (r: Dial<E>)
        ensures
            r.wf(),
            r.ips == ips,
            r.port == port,
            r.next == 0,
            r.last is None,
    {
        Dial { ips, port, next: 0, last: None }
    }

    /// The next address to try, or the failure after the last one.
    pub fn step(&mut self) -> (r: DialStep<E>)
        requires
            old(self).wf(),
        ensures
            final(self).wf(),
            final(self).ips == old(self).ips,
            final(self).port == old(self).port,
            if old(self).next < old(self).ips@.len() {
                (r matches DialStep::Try(a) && a@ == socket_of(
                    old(self).ips@[old(self).next as int]@,
                    old(self).port,
                )) && final(self).next == old(self).next + 1 && final(self).last == old(self).last
            } else {
                (r matches DialStep::Failed(e) && e == old(self).last) && final(self).next == old(self).next
            },
    {
        if self.next < self.ips.len() {
            let a: SocketAddr = SocketAddr::new(self.ips[self.next], self.port);
            self.next = self.next + 1;
            DialStep::Try(a)
        } else {
            let mut e: Option<E> = None;
            std::mem::swap(&mut e, &mut self.last);
            DialStep::Failed(e)
        }
    }

    /// Notes that the last address tried failed.
    pub fn failed(&mut self, e: E)
        requires
            old(self).wf(),
        ensures
            final(self).wf(),
            final(self).ips == old(self).ips,
            final(self).port == old(self).port,
            final(self).next == old(self).next,
            final(self).last == Some(e),
    {
        self.last = Some(e);
    }
}

/// A target is a host and a port behind the last colon, whatever the host is; square brackets around the
/// whole host are taken off, both or none.
pub proof fn law_target_split(host: Seq<char>, port: u16)
    ensures
        host_and_port(seq!['['] + host + seq![']'] + seq![':'] + decimal(port as nat)) == Some((host, port)),
        host.len() < 2 || host[0] != '[' || host.last() != ']' ==> host_and_port(host + seq![':'] + decimal(port as nat))
            == Some((host, port)),
{
    let h = seq!['['] + host + seq![']'];
    lemma_colon_port(h, port as nat);
    lemma_colon_port(host, port as nat);
    law_decimal_roundtrip(port as nat, 65535);
    assert(h.subrange(1, h.len() - 1) =~= host);
}

/// Without a colon, or without a number up to 65535 behind the last one, there is no target.
pub proof fn law_no_target(a: Seq<char>, b: Seq<char>)
    requires
        !b.contains(':'),
    ensures
        host_and_port(b) is None,
        uint_text(b, 65535) is None ==> host_and_port(a + seq![':'] + b) is None,
{
    lemma_last_index_bounds(b, ':');
    if last_index(b, ':') >= 0 {
        assert(b.contains(b[last_index(b, ':')]));
    }
    let t = a + seq![':'] + b;
    let n = a.len() as int;
    assert forall|j: int| n < j < t.len() implies t[j] != ':' by {
        assert(t[j] == b[j - n - 1]);
        assert(b.contains(b[j - n - 1]));
    }
    crate::seqs::lemma_last_index_is(t, ':', n);
    assert(t.skip(n + 1) =~= b);
}

proof fn lemma_strict_front(p: Seq<Seq<char>>)
    requires
        p.len() > 0,
    ensures
        strict_labels(p) == match strict_labels(p.drop_first()) {
            None => None::<Seq<u8>>,
            Some(rest) => if 0 < encode_utf8(p[0]).len() <= 63 {
                Some(label_bytes(p[0]) + rest)
            } else {
                None
            },
        },
    decreases p.len(),
{
    if p.len() == 1 {
        assert(p.drop_last() =~= seq![]);
        assert(p.drop_first() =~= seq![]);
        assert(strict_labels(seq![]) == Some(Seq::<u8>::empty()));
        assert(Seq::<u8>::empty() + label_bytes(p[0]) =~= label_bytes(p[0]) + Seq::<u8>::empty());
    } else {
        let q = p.drop_last();
        lemma_strict_front(q);
        assert(q.drop_first() =~= p.drop_first().drop_last());
        assert(q[0] == p[0]);
        assert(p.drop_first().last() == p.last());
        match strict_labels(q.drop_first()) {
            None => {},
            Some(rest) => {
                assert((label_bytes(p[0]) + rest) + label_bytes(p.last()) =~= label_bytes(p[0]) + (rest + label_bytes(
                    p.last(),
                )));
            },
        }
    }
}

/// The labels of a name as bytes.
pub open spec fn encoded_labels(p: Seq<Seq<char>>) -> Seq<Seq<u8>> {
    Seq::new(p.len(), |i: int| encode_utf8(p[i]))
}

/// The name in a query is a whole name with exactly the labels of the name that is asked for. There is
/// none exactly where one of them is empty or longer than sixty-three bytes.
pub proof fn law_strict_name(p: Seq<Seq<char>>)
    ensures
        strict_labels(p) is None <==> exists|i: int|
            0 <= i < p.len() && !(1 <= encode_utf8(#[trigger] p[i]).len() <= 63),
        strict_labels(p) matches Some(l) ==> is_name(l + seq![0u8]) && name_labels(l + seq![0u8]) == encoded_labels(p),
    decreases p.len(),
{
    if p.len() == 0 {
        assert(Seq::<u8>::empty() + seq![0u8] =~= seq![0u8]);
        assert(name_labels(seq![0u8]) =~= encoded_labels(p));
    } else {
        let rest = p.drop_first();
        lemma_strict_front(p);
        law_strict_name(rest);
        if strict_labels(rest) is None {
            let i = choose|i: int| 0 <= i < rest.len() && !(1 <= encode_utf8(#[trigger] rest[i]).len() <= 63);
            assert(p[i + 1] == rest[i]);
        }
        assert forall|i: int| 0 < i < p.len() && !(1 <= encode_utf8(#[trigger] p[i]).len() <= 63) implies strict_labels(
            rest,
        ) is None by {
            assert(rest[i - 1] == p[i]);
        }
        if strict_labels(p) is Some {
            let e = encode_utf8(p[0]);
            let r = strict_labels(rest)->0;
            let n = (label_bytes(p[0]) + r) + seq![0u8];
            assert(n[0] == e.len() as u8);
            assert(n.skip(1 + e.len() as int) =~= r + seq![0u8]);
            assert(n.subrange(1, 1 + e.len() as int) =~= e);
            assert(seq![e] + encoded_labels(rest) =~= encoded_labels(p));
        }
    }
}

/// A query is a message with its number, one question with recursion wanted, and nothing else; the
/// question is for the records of this type.
pub proof fn law_query_form(tx: u16, labels: Seq<u8>, qtype: u16)
    ensures
        query_bytes(tx, labels, qtype) == message_head(tx, (1, 0), 1, 0, seq![0u8, 0, 0, 0]) + questions_bytes(
            seq![(labels + seq![0u8], qtype, 1u16)],
        ),
{
    let q = seq![(labels + seq![0u8], qtype, 1u16)];
    assert(q.drop_first() =~= seq![]);
    reveal_with_fuel(questions_bytes, 2);
    assert(query_bytes(tx, labels, qtype) =~= message_head(tx, (1, 0), 1, 0, seq![0u8, 0, 0, 0]) + questions_bytes(q));
}

/// Dots at the end of a name make no difference.
pub proof fn law_end_dots(tx: u16, host: Seq<char>, qtype: u16)
    ensures
        dns_query(tx, host + seq!['.'], qtype) == dns_query(tx, host, qtype),
        host.len() > 0 && host.last() != '.' ==> trim_end_char(host, '.') == host,
{
    assert((host + seq!['.']).drop_last() =~= host);
    assert((host + seq!['.']).last() == '.');
}

proof fn lemma_loose_name(msg: Seq<u8>, pos: int, n: Seq<u8>)
    requires
        0 <= pos,
        pos + n.len() <= msg.len(),
        msg.subrange(pos, pos + n.len()) == n,
        is_name(n),
    ensures
        loose_name_end(msg, pos) == pos + n.len(),
    decreases n.len(),
{
    assert(msg[pos] == n[0]);
    if n[0] != 0 && n[0] < 0xc0 {
        let k = 1 + n[0];
        assert(msg.subrange(pos + k, pos + n.len()) =~= n.skip(k));
        lemma_loose_name(msg, pos + k, n.skip(k));
    }
}

/// The addresses among records: the four bytes of those of type 1 and the sixteen of those of type 28,
/// in their order.
pub open spec fn record_ips(rs: Seq<DnsRecord>) -> Seq<IpView>
    decreases rs.len(),
{
    if rs.len() == 0 {
        seq![]
    } else if rs[0].kind == 1 && rs[0].data.len() == 4 {
        seq![IpView::V4(rs[0].data)] + record_ips(rs.drop_first())
    } else if rs[0].kind == 28 && rs[0].data.len() == 16 {
        seq![IpView::V6(rs[0].data)] + record_ips(rs.drop_first())
    } else {
        record_ips(rs.drop_first())
    }
}

proof fn lemma_loose_records(front: Seq<u8>, rs: Seq<DnsRecord>, behind: Seq<u8>, more: nat)
    requires
        whole_records(rs),
        more == 0 || behind.len() < 10,
    ensures
        answer_ips(front + records_bytes(rs) + behind, front.len() as int, rs.len() + more) == record_ips(rs),
    decreases rs.len(),
{
    let msg = front + records_bytes(rs) + behind;
    let n = front.len() as int;
    if rs.len() == 0 {
        if more > 0 {
            law_loose_name_end(msg, n);
        }
    } else {
        let r = rs[0];
        let rest = rs.drop_first();
        let rb = record_bytes(r);
        assert(is_name(rs[0].name));
        lemma_record_fields(front, r, records_bytes(rest) + behind);
        assert(msg =~= front + rb + (records_bytes(rest) + behind));
        lemma_loose_name(msg, n, r.name);
        let p = n + r.name.len();
        assert(msg =~= (front + rb) + records_bytes(rest) + behind);
        assert(whole_records(rest)) by {
            assert forall|i: int| 0 <= i < rest.len() implies is_name((#[trigger] rest[i]).name) && rest[i].data.len()
                <= 65535 by {
                assert(rest[i] == rs[i + 1]);
            }
        }
        lemma_loose_records(front + rb, rest, behind, more);
        assert((front + rb).len() == p + 10 + r.data.len());
        assert(Seq::<IpView>::empty() + record_ips(rest) =~= record_ips(rest));
    }
}

proof fn lemma_loose_questions(front: Seq<u8>, qs: Seq<(Seq<u8>, u16, u16)>, behind: Seq<u8>)
    requires
        forall|i: int| 0 <= i < qs.len() ==> is_name((#[trigger] qs[i]).0),
    ensures
        loose_questions(front + questions_bytes(qs) + behind, front.len() as int, qs.len()) == front.len()
            + questions_bytes(qs).len(),
    decreases qs.len(),
{
    if qs.len() > 0 {
        let msg = front + questions_bytes(qs) + behind;
        let q = qs[0];
        let n = front.len() as int;
        assert(is_name(qs[0].0));
        assert(msg.subrange(n, n + q.0.len()) =~= q.0);
        lemma_loose_name(msg, n, q.0);
        let qb = q.0 + be16(q.1) + be16(q.2);
        let rest = qs.drop_first();
        assert(msg =~= (front + qb) + questions_bytes(rest) + behind);
        assert forall|i: int| 0 <= i < rest.len() implies is_name((#[trigger] rest[i]).0) by {
            assert(rest[i] == qs[i + 1]);
        }
        lemma_loose_questions(front + qb, rest, behind);
    }
}

/// The answer to a query gives the addresses of its records, of either version and in their order;
/// records of other types change nothing. Where it announces more records than it holds, those that it
/// holds count.
pub proof fn law_response_read(
    tx: u16,
    flags: (u8, u8),
    tail: Seq<u8>,
    qs: Seq<(Seq<u8>, u16, u16)>,
    rs: Seq<DnsRecord>,
    more: nat,
    behind: Seq<u8>,
)
    requires
        flags.0 >= 0x80,
        tail.len() == 4,
        qs.len() <= 65535,
        rs.len() + more <= 65535,
        forall|i: int| 0 <= i < qs.len() ==> is_name((#[trigger] qs[i]).0),
        whole_records(rs),
        more == 0 || behind.len() < 10,
    ensures
        response_ips(
            message_head(tx, flags, qs.len() as u16, (rs.len() + more) as u16, tail) + questions_bytes(qs)
                + records_bytes(rs) + behind,
            tx,
        ) == record_ips(rs),
{
    let head = message_head(tx, flags, qs.len() as u16, (rs.len() + more) as u16, tail);
    let msg = head + questions_bytes(qs) + records_bytes(rs) + behind;
    assert(head.len() == 12);
    assert(msg.subrange(0, 2) =~= be16(tx));
    lemma_be16_at(tx, msg, 0);
    assert(msg[2] == flags.0);
    assert(msg.subrange(4, 6) =~= be16(qs.len() as u16));
    lemma_be16_at(qs.len() as u16, msg, 4);
    assert(msg.subrange(6, 8) =~= be16((rs.len() + more) as u16));
    lemma_be16_at((rs.len() + more) as u16, msg, 6);
    assert(msg =~= head + questions_bytes(qs) + (records_bytes(rs) + behind));
    lemma_loose_questions(head, qs, records_bytes(rs) + behind);
    lemma_loose_records(head + questions_bytes(qs), rs, behind, more);
}

/// What is no answer to the query gives no address: too short a message, another number, and a query.
pub proof fn law_no_response(b: Seq<u8>, tx: u16)
    requires
        b.len() < 12 || 256 * b[0] + b[1] != tx || b[2] < 0x80,
    ensures
        response_ips(b, tx) == Seq::<IpView>::empty(),
{
}

/// Addresses are put in order by version alone: those of version 4 come first, and within either version
/// they keep the order that they had.
pub proof fn law_version_order(s: Seq<IpView>)
    ensures
        v4_first(s).len() == s.len(),
        v4_first(s).filter(|a: IpView| a is V4) == s.filter(|a: IpView| a is V4),
        v4_first(s).filter(|a: IpView| a is V6) == s.filter(|a: IpView| a is V6),
        forall|i: int, j: int|
            0 <= i < j < v4_first(s).len() && #[trigger] v4_first(s)[j] is V4 ==> #[trigger] v4_first(s)[i] is V4,
{
    let f = |a: IpView| a is V4;
    let g = |a: IpView| !(a is V4);
    let h = |a: IpView| a is V6;
    let a = s.filter(f);
    let b = s.filter(g);
    lemma_filter_same(s, g, h);
    Seq::filter_distributes_over_add(a, b, f);
    Seq::filter_distributes_over_add(a, b, h);
    assert forall|i: int| 0 <= i < a.len() implies f(#[trigger] a[i]) by {
        s.lemma_filter_pred(f, i);
    }
    assert forall|i: int| 0 <= i < b.len() implies g(#[trigger] b[i]) by {
        s.lemma_filter_pred(g, i);
    }
    lemma_filter_keeps(a, f);
    lemma_filter_drops(b, f);
    lemma_filter_drops(a, h);
    lemma_filter_keeps(b, h);
    assert(a + Seq::<IpView>::empty() =~= a);
    assert(Seq::<IpView>::empty() + b =~= b);
    lemma_filter_lens(s);
}

proof fn lemma_filter_same(s: Seq<IpView>, g: spec_fn(IpView) -> bool, h: spec_fn(IpView) -> bool)
    requires
        forall|a: IpView| #[trigger] g(a) == h(a),
    ensures
        s.filter(g) == s.filter(h),
    decreases s.len(),
{
    reveal(Seq::filter);
    if s.len() > 0 {
        lemma_filter_same(s.drop_last(), g, h);
        assert(g(s.last()) == h(s.last()));
    }
}

proof fn lemma_filter_keeps(s: Seq<IpView>, f: spec_fn(IpView) -> bool)
    requires
        forall|i: int| 0 <= i < s.len() ==> f(#[trigger] s[i]),
    ensures
        s.filter(f) == s,
    decreases s.len(),
{
    reveal(Seq::filter);
    if s.len() > 0 {
        lemma_filter_keeps(s.drop_last(), f);
        assert(s.drop_last().push(s.last()) =~= s);
    }
}

proof fn lemma_filter_drops(s: Seq<IpView>, f: spec_fn(IpView) -> bool)
    requires
        forall|i: int| 0 <= i < s.len() ==> !f(#[trigger] s[i]),
    ensures
        s.filter(f) == Seq::<IpView>::empty(),
    decreases s.len(),
{
    reveal(Seq::filter);
    if s.len() > 0 {
        lemma_filter_drops(s.drop_last(), f);
    }
}

proof fn lemma_filter_lens(s: Seq<IpView>)
    ensures
        v4_first(s).len() == s.len(),
    decreases s.len(),
{
    reveal(Seq::filter);
    if s.len() > 0 {
        lemma_filter_lens(s.drop_last());
    }
}

/// What is remembered of a name counts until it expires, and not from then on; other names are not
/// touched by it.
pub proof fn law_fresh_until_expired(
    m: Map<Seq<char>, Cached<Vec<IpAddr>>>,
    name: Seq<char>,
    c: Cached<Vec<IpAddr>>,
    now_ms: u64,
    other: Seq<char>,
)
    requires
        other != name,
    ensures
        now_ms < c.expires_ms ==> fresh(m.insert(name, c), name, now_ms) == Some(c.value@),
        c.expires_ms <= now_ms ==> fresh(m.insert(name, c), name, now_ms) is None,
        fresh(m.insert(name, c), other, now_ms) == fresh(m, other, now_ms),
        fresh(m.remove(name), name, now_ms) is None,
{
}

/// A name made of labels with dots between them.
pub open spec fn dotted(p: Seq<Seq<char>>) -> Seq<char>
    decreases p.len(),
{
    if p.len() == 0 {
        seq![]
    } else if p.len() == 1 {
        p[0]
    } else {
        p[0] + seq!['.'] + dotted(p.drop_first())
    }
}

proof fn lemma_dotted(p: Seq<Seq<char>>)
    requires
        p.len() > 0,
        forall|i: int| 0 <= i < p.len() ==> !(#[trigger] p[i]).contains('.'),
    ensures
        pieces(dotted(p), '.') == p,
        p.last().len() > 0 ==> dotted(p).len() > 0 && dotted(p).last() == p.last().last(),
    decreases p.len(),
{
    assert(!p[0].contains('.'));
    assert forall|i: int| 0 <= i < p[0].len() implies p[0][i] != '.' by {
        assert(p[0].contains(p[0][i]));
    }
    if p.len() == 1 {
        crate::ip::lemma_pieces_one(p[0], '.');
        assert(p =~= seq![p[0]]);
    } else {
        let t = p.drop_first();
        assert forall|i: int| 0 <= i < t.len() implies !(#[trigger] t[i]).contains('.') by {
            assert(t[i] == p[i + 1]);
        }
        lemma_dotted(t);
        crate::ip::lemma_pieces_cons(p[0], '.', dotted(t));
        assert(seq![p[0]] + t =~= p);
        assert(t.last() == p.last());
    }
}

/// Whoever asks for a name gets a query with exactly its labels, unless one of them is empty or longer than
/// sixty-three bytes; the query is for the records of the type asked for, and has the number given.
pub proof fn law_query_built(tx: u16, p: Seq<Seq<char>>, qtype: u16)
    requires
        0 < p.len() <= 1000,
        forall|i: int| 0 <= i < p.len() ==> !(#[trigger] p[i]).contains('.'),
        p.last().len() > 0,
    ensures
        dns_query(tx, dotted(p), qtype) is None <==> exists|i: int|
            0 <= i < p.len() && !(1 <= encode_utf8(#[trigger] p[i]).len() <= 63),
        dns_query(tx, dotted(p), qtype) matches Some(q) ==> exists|name: Seq<u8>|
            is_name(name) && #[trigger] name_labels(name) == encoded_labels(p) && q == message_head(
                tx,
                (1, 0),
                1,
                0,
                seq![0u8, 0, 0, 0],
            ) + questions_bytes(seq![(name, qtype, 1u16)]),
{
    lemma_dotted(p);
    let h = dotted(p);
    assert(h.last() != '.') by {
        if h.last() == '.' {
            assert(p[p.len() - 1].contains(p.last().last()));
        }
    }
    assert(trim_end_char(h, '.') == h);
    law_strict_name(p);
    if strict_labels(p) is Some {
        let l = strict_labels(p)->0;
        lemma_strict_len(p);
        law_query_form(tx, l, qtype);
        assert(name_labels(l + seq![0u8]) == encoded_labels(p));
    }
}

proof fn lemma_strict_len(p: Seq<Seq<char>>)
    ensures
        strict_labels(p) matches Some(l) ==> l.len() <= 64 * p.len(),
    decreases p.len(),
{
    if p.len() > 0 {
        lemma_strict_len(p.drop_last());
    }
}

/// Of two answers all addresses are kept, those of the first before those of the second. One answer is
/// enough where it has an address. Where there is none, the failure is that of the second query, or else
/// of the first; without a failure there is none.
pub proof fn law_answers_merged<E>(v: Vec<IpAddr>, w: Vec<IpAddr>, e: E, f: E)
    ensures
        v@.len() + w@.len() > 0 ==> merged::<E>(Ok(v), Ok(w)) == Ok::<Seq<IpAddr>, Option<E>>(v@ + w@),
        v@.len() + w@.len() == 0 ==> merged::<E>(Ok(v), Ok(w)) == Err::<Seq<IpAddr>, Option<E>>(None),
        v@.len() > 0 ==> merged(Ok(v), Err(e)) == Ok::<Seq<IpAddr>, Option<E>>(v@),
        v@.len() == 0 ==> merged(Ok(v), Err(e)) == Err::<Seq<IpAddr>, Option<E>>(Some(e)),
        w@.len() > 0 ==> merged(Err(e), Ok(w)) == Ok::<Seq<IpAddr>, Option<E>>(w@),
        w@.len() == 0 ==> merged(Err(e), Ok(w)) == Err::<Seq<IpAddr>, Option<E>>(Some(e)),
        merged(Err(e), Err(f)) == Err::<Seq<IpAddr>, Option<E>>(Some(f)),
{
    assert(v@ + Seq::<IpAddr>::empty() =~= v@);
    assert(Seq::<IpAddr>::empty() + w@ =~= w@);
}

/// A target with an address is reached at it, whatever is known. One with a name is reached at the addresses
/// that were put down for it, until they expire, and is resolved before or after; the port is its own. A
/// target without a colon is none.
pub proof fn law_ways(
    host: Seq<char>,
    port: u16,
    m: Map<Seq<char>, Cached<Vec<IpAddr>>>,
    c: Cached<Vec<IpAddr>>,
    now_ms: u64,
)
    requires
        host.len() < 2 || host[0] != '[' || host.last() != ']',
    ensures
        ({
            let t = host + seq![':'] + decimal(port as nat);
            &&& ip_text(host) matches Some(ip) ==> way(t, m, now_ms) == Way::Address(socket_of(ip, port))
            &&& ip_text(host) is None && now_ms < c.expires_ms ==> way(t, m.insert(host, c), now_ms) == Way::Known(
                c.value@,
                port,
            )
            &&& ip_text(host) is None && now_ms >= c.expires_ms ==> way(t, m.insert(host, c), now_ms) == Way::Resolve(
                host,
                port,
            )
            &&& ip_text(host) is None ==> way(t, m.remove(host), now_ms) == Way::Resolve(host, port)
        }),
        !host.contains(':') ==> way(host, m, now_ms) is BadTarget,
{
    law_target_split(host, port);
    if !host.contains(':') {
        law_no_target(host, host);
    }
}

} // verus!
