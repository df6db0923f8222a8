//! Name resolution inside a tunnel: queries for version 4 addresses, their answers, and a cache.

use vstd::prelude::*;
use vstd::utf8::encode_utf8;

use crate::cache::{make_room, with_room, Cached};
use crate::chance::random_u16;
use crate::ip::{ip_text, parse_ip_str, socket_of, IpAddr, SocketAddr, SocketView};
use crate::seqs::pieces;
use crate::table::Table;
use crate::text::{chars_of, decimal, push_decimal, push_text, split_char, string_of};
use crate::wire::{
    be16, be32, lemma_be16_at, lemma_be32_at, push_bytes, push_u16, read_u16, read_u32, u16_at, u32_at,
};

verus! {

/// How many names the cache holds.
pub const CACHE_CAP: usize = 1024;

/// The shortest time that an answer is kept, in seconds.
pub const TTL_MIN: u64 = 5;

/// The longest time that an answer is kept, in seconds.
pub const TTL_MAX: u64 = 3600;

/// Why a query could not be built or an answer was rejected.
#[derive(PartialEq, Eq, Debug)]
pub enum DnsError {
    /// This label of the name is longer than 63 bytes.
    LabelTooLong(String),
    TooShort,
    IdMismatch,
    NotResponse,
    NxDomain,
    Rcode(u8),
    Truncated,
    PointerTruncated,
    AnswerTruncated,
    DataTruncated,
    NoRecords,
}

/// What the user is told of an error.
pub open spec fn dns_error_text(e: DnsError) -> Seq<char> {
    match e {
        DnsError::LabelTooLong(l) => "域名标签超过 63 字节: "@ + l@,
        DnsError::TooShort => "DNS 响应过短"@,
        DnsError::IdMismatch => "DNS 响应 ID 不匹配 (可能是串包)"@,
        DnsError::NotResponse => "DNS 响应的 QR 位不是响应"@,
        DnsError::NxDomain => "域名不存在 (NXDOMAIN)"@,
        DnsError::Rcode(c) => "DNS 服务端返回错误 RCODE="@ + decimal(c as nat),
        DnsError::Truncated => "DNS 报文截断"@,
        DnsError::PointerTruncated => "DNS 压缩指针截断"@,
        DnsError::AnswerTruncated => "DNS 回答段截断"@,
        DnsError::DataTruncated => "DNS 记录数据截断"@,
        DnsError::NoRecords => "响应里没有 A 记录"@,
    }
}

impl DnsError {
    /// What the user is told.
    pub fn message(&self) -> (r: String)
        ensures
            r@ == dns_error_text(*self),
    {
        let mut out: Vec<char> = Vec::new();
        match self {
            DnsError::LabelTooLong(l) => {
                push_text(&mut out, "域名标签超过 63 字节: ");
                push_text(&mut out, l.as_str());
            },
            DnsError::TooShort => push_text(&mut out, "DNS 响应过短"),
            DnsError::IdMismatch => push_text(&mut out, "DNS 响应 ID 不匹配 (可能是串包)"),
            DnsError::NotResponse => push_text(&mut out, "DNS 响应的 QR 位不是响应"),
            DnsError::NxDomain => push_text(&mut out, "域名不存在 (NXDOMAIN)"),
            DnsError::Rcode(c) => {
                push_text(&mut out, "DNS 服务端返回错误 RCODE=");
                push_decimal(&mut out, *c as u64);
            },
            DnsError::Truncated => push_text(&mut out, "DNS 报文截断"),
            DnsError::PointerTruncated => push_text(&mut out, "DNS 压缩指针截断"),
            DnsError::AnswerTruncated => push_text(&mut out, "DNS 回答段截断"),
            DnsError::DataTruncated => push_text(&mut out, "DNS 记录数据截断"),
            DnsError::NoRecords => push_text(&mut out, "响应里没有 A 记录"),
        }
        assert(out@ =~= dns_error_text(*self));
        string_of(out.as_slice())
    }
}

/// One label: its length in a byte, and its bytes.
pub open spec fn label_bytes(label: Seq<char>) -> Seq<u8> {
    seq![encode_utf8(label).len() as u8] + encode_utf8(label)
}

/// The non-empty labels of `p`, encoded one behind another; where one is longer than 63 bytes, the first
/// such label.
pub open spec fn labels_bytes(p: Seq<Seq<char>>) -> Result<Seq<u8>, Seq<char>>
    decreases p.len(),
{
    if p.len() == 0 {
        Ok(seq![])
    } else {
        match labels_bytes(p.drop_last()) {
            Err(l) => Err(l),
            Ok(head) => if p.last().len() == 0 {
                Ok(head)
            } else if encode_utf8(p.last()).len() > 63 {
                Err(p.last())
            } else {
                Ok(head + label_bytes(p.last()))
            },
        }
    }
}

/// The fixed part of a query: its number, one question, recursion wanted.
pub open spec fn query_head(id: u16) -> Seq<u8> {
    be16(id) + seq![1u8, 0, 0, 1, 0, 0, 0, 0, 0, 0]
}

/// A query for the addresses of a name.
pub open spec fn query_bytes(id: u16, labels: Seq<u8>, qtype: u16) -> Seq<u8> {
    query_head(id) + labels + seq![0u8] + be16(qtype) + be16(1)
}

/// Appends the fixed part of a query.
pub fn push_query_head(q: &mut Vec<u8>, id: u16)
    ensures
        final(q)@ == old(q)@ + query_head(id),
{
    push_u16(q, id);
    let rest: [u8; 10] = [1u8, 0, 0, 1, 0, 0, 0, 0, 0, 0];
    push_bytes(q, rest.as_slice());
    assert(rest@ =~= seq![1u8, 0, 0, 1, 0, 0, 0, 0, 0, 0]);
    assert(q@ =~= old(q)@ + query_head(id));
}

/// An empty text has an empty encoding, and no other has.
proof fn lemma_label_empty(s: Seq<char>)
    ensures
        encode_utf8(s).len() == 0 <==> s.len() == 0,
{
    if s.len() > 0 {
        reveal_with_fuel(encode_utf8, 2);
    }
}

proof fn lemma_labels_prefix(p: Seq<Seq<char>>, n: int)
    requires
        0 <= n <= p.len(),
        labels_bytes(p.take(n)) is Err,
    ensures
        labels_bytes(p) == labels_bytes(p.take(n)),
    decreases p.len(),
{
    if n == p.len() {
        assert(p.take(n) =~= p);
    } else {
        assert(p.drop_last().take(n) =~= p.take(n));
        lemma_labels_prefix(p.drop_last(), n);
    }
}

/// Builds a query for the version 4 addresses of a name. Empty labels are left out.
pub fn build_query(id: u16, name: &str) -> (r: Result<Vec<u8>, DnsError>)
    ensures
        match labels_bytes(pieces(name@, '.')) {
            Ok(l) => r matches Ok(q) && q@ == query_bytes(id, l, 1),
            Err(l) => r matches Err(DnsError::LabelTooLong(x)) && x@ == l,
        },
{
    let c: Vec<char> = chars_of(name);
    let labels: Vec<Vec<char>> = split_char(c.as_slice(), '.');
    let ghost p = pieces(name@, '.');
    let mut q: Vec<u8> = Vec::new();
    push_query_head(&mut q, id);
    let mut i: usize = 0;
    assert(p.take(0) =~= seq![]);
    assert(q@ =~= query_head(id) + seq![]);
    while i < labels.len()
        invariant
            p == pieces(name@, '.'),
            labels@.len() == p.len(),
            forall|k: int| 0 <= k < labels@.len() ==> (#[trigger] labels@[k])@ == p[k],
            i <= labels@.len(),
            labels_bytes(p.take(i as int)) is Ok,
            q@ == query_head(id) + labels_bytes(p.take(i as int))->Ok_0,
        decreases labels@.len() - i,
    {
        proof {
            assert(labels@[i as int]@ == p[i as int]);
            assert(p.take(i + 1).drop_last() =~= p.take(i as int));
            assert(p.take(i + 1).last() == p[i as int]);
            lemma_label_empty(p[i as int]);
        }
        if labels[i].len() > 0 {
            let text: String = string_of(labels[i].as_slice());
            let b: &[u8] = text.as_str().as_bytes();
            if b.len() > 63 {
                proof {
                    lemma_labels_prefix(p, i + 1);
                }
                return Err(DnsError::LabelTooLong(text));
            }
            let ghost q0 = q@;
            q.push(b.len() as u8);
            push_bytes(&mut q, b);
            assert(q@ =~= q0 + label_bytes(p[i as int]));
            assert(q@ =~= query_head(id) + labels_bytes(p.take(i + 1))->Ok_0);
        }
        i = i + 1;
    }
    assert(p.take(i as int) =~= p);
    let ghost l = labels_bytes(p)->Ok_0;
    q.push(0);
    push_u16(&mut q, 1);
    push_u16(&mut q, 1);
    assert(q@ =~= query_bytes(id, l, 1));
    Ok(q)
}

/// The position behind the name at `pos`. A name ends with a zero byte or with a pointer of two bytes,
/// which is not followed.
pub open spec fn name_end(msg: Seq<u8>, pos: int) -> Result<int, DnsError>
    decreases msg.len() - pos,
{
    if pos < 0 || pos >= msg.len() {
        Err(DnsError::Truncated)
    } else if msg[pos] == 0 {
        Ok(pos + 1)
    } else if msg[pos] >= 0xc0 {
        if pos + 1 >= msg.len() {
            Err(DnsError::PointerTruncated)
        } else {
            Ok(pos + 2)
        }
    } else if pos + 1 + msg[pos] >= msg.len() {
        Err(DnsError::Truncated)
    } else {
        name_end(msg, pos + 1 + msg[pos])
    }
}

/// Reading a name always ends, moves forward and stays within the message, whatever its pointers
/// say.
pub proof fn law_name_end_forward(msg: Seq<u8>, pos: int)
    ensures
        name_end(msg, pos) matches Ok(e) ==> 0 <= pos < e <= msg.len(),
    decreases msg.len() - pos,
{
    if 0 <= pos < msg.len() && msg[pos] != 0 && msg[pos] < 0xc0 && pos + 1 + msg[pos] < msg.len() {
        law_name_end_forward(msg, pos + 1 + msg[pos]);
    }
}

/// The position behind the name at `pos`.
pub fn skip_name(msg: &[u8], pos: usize) -> (r: Result<usize, DnsError>)
    ensures
        match name_end(msg@, pos as int) {
            Ok(e) => r matches Ok(n) && n == e && pos < n <= msg@.len(),
            Err(x) => r matches Err(y) && x == y,
        },
{
    let mut p: usize = pos;
    proof {
        law_name_end_forward(msg@, pos as int);
    }
    loop
        invariant
            name_end(msg@, pos as int) == name_end(msg@, p as int),
            name_end(msg@, pos as int) matches Ok(e) ==> pos < e <= msg@.len(),
        decreases msg@.len() - p,
    {
        if p >= msg.len() {
            return Err(DnsError::Truncated);
        }
        let n: u8 = msg[p];
        if n == 0 {
            return Ok(p + 1);
        }
        if n & 0xC0 == 0xC0 {
            assert(n & 0xC0 == 0xC0 ==> n >= 0xC0) by (bit_vector);
            if p == msg.len() - 1 {
                return Err(DnsError::PointerTruncated);
            }
            return Ok(p + 2);
        }
        assert(n & 0xC0 != 0xC0 ==> n < 0xC0) by (bit_vector);
        if n as usize >= msg.len() - p - 1 {
            return Err(DnsError::Truncated);
        }
        p = p + 1 + n as usize;
    }
}

/// The position behind `n` questions.
pub open spec fn after_questions(msg: Seq<u8>, pos: int, n: nat) -> Result<int, DnsError>
    decreases n,
{
    if n == 0 {
        Ok(pos)
    } else {
        match name_end(msg, pos) {
            Err(e) => Err(e),
            Ok(p) => after_questions(msg, p + 4, (n - 1) as nat),
        }
    }
}

/// The version 4 addresses among records, and the smallest of their lifetimes.
#[verifier::ext_equal]
pub struct Found {
    pub ips: Seq<Seq<u8>>,
    pub ttl: int,
}

/// Reads `n` records from `pos` on and adds the version 4 addresses among them to `acc`.
pub open spec fn read_records(msg: Seq<u8>, pos: int, n: nat, acc: Found) -> Result<Found, DnsError>
    decreases n,
{
    if n == 0 {
        Ok(acc)
    } else {
        match name_end(msg, pos) {
            Err(e) => Err(e),
            Ok(p) => {
                let len = u16_at(msg, p + 8);
                let ttl = u32_at(msg, p + 4);
                if p + 10 > msg.len() {
                    Err(DnsError::AnswerTruncated)
                } else if p + 10 + len > msg.len() {
                    Err(DnsError::DataTruncated)
                } else if u16_at(msg, p) == 1 && len == 4 {
                    read_records(
                        msg,
                        p + 14,
                        (n - 1) as nat,
                        Found {
                            ips: acc.ips.push(msg.subrange(p + 10, p + 14)),
                            ttl: if ttl < acc.ttl {
                                ttl
                            } else {
                                acc.ttl
                            },
                        },
                    )
                } else {
                    read_records(msg, p + 10 + len, (n - 1) as nat, acc)
                }
            },
        }
    }
}

/// The answer of a message to the query of this number.
pub open spec fn answer(msg: Seq<u8>, id: u16) -> Result<Found, DnsError> {
    if msg.len() < 12 {
        Err(DnsError::TooShort)
    } else if u16_at(msg, 0) != id {
        Err(DnsError::IdMismatch)
    } else if msg[2] < 0x80 {
        Err(DnsError::NotResponse)
    } else if msg[3] % 16 == 3 {
        Err(DnsError::NxDomain)
    } else if msg[3] % 16 != 0 {
        Err(DnsError::Rcode((msg[3] % 16) as u8))
    } else {
        match after_questions(msg, 12, u16_at(msg, 4) as nat) {
            Err(e) => Err(e),
            Ok(p) => match read_records(msg, p, u16_at(msg, 6) as nat, Found { ips: seq![], ttl: TTL_MAX as int }) {
                Err(e) => Err(e),
                Ok(f) => if f.ips.len() == 0 {
                    Err(DnsError::NoRecords)
                } else {
                    Ok(
                        Found {
                            ips: f.ips,
                            ttl: if f.ttl < TTL_MIN {
                                TTL_MIN as int
                            } else {
                                f.ttl
                            },
                        },
                    )
                },
            },
        }
    }
}

/// Addresses as sequences of octets.
pub open spec fn octets(v: Seq<[u8; 4]>) -> Seq<Seq<u8>> {
    Seq::new(v.len(), |i: int| v[i]@)
}

/// The result of reading an answer.
pub open spec fn records_view(r: Result<(Vec<[u8; 4]>, u64), DnsError>) -> Result<Found, DnsError> {
    match r {
        Ok(x) => Ok(Found { ips: octets(x.0@), ttl: x.1 as int }),
        Err(e) => Err(e),
    }
}

/// Reads the version 4 addresses of an answer, and how long they may be kept: the smallest lifetime,
/// within bounds. The answer must carry the number of the query.
pub fn parse_a_records(resp: &[u8], want_id: u16) -> (r: Result<(Vec<[u8; 4]>, u64), DnsError>)
    requires
        resp@.len() + 4 <= usize::MAX,
    ensures
        records_view(r) == answer(resp@, want_id),
        r matches Ok(x) ==> x.0@.len() > 0 && TTL_MIN <= x.1 <= TTL_MAX,
{
    if resp.len() < 12 {
        return Err(DnsError::TooShort);
    }
    if read_u16(resp, 0) != want_id {
        return Err(DnsError::IdMismatch);
    }
    let flags: u8 = resp[2];
    assert(flags & 0x80 == 0 <==> flags < 0x80) by (bit_vector);
    if flags & 0x80 == 0 {
        return Err(DnsError::NotResponse);
    }
    let code: u8 = resp[3];
    assert(code & 0x0F == code % 16) by (bit_vector);
    let rc: u8 = code & 0x0F;
    if rc == 3 {
        return Err(DnsError::NxDomain);
    }
    if rc != 0 {
        return Err(DnsError::Rcode(rc));
    }
    let qd: u16 = read_u16(resp, 4);
    let an: u16 = read_u16(resp, 6);
    let mut pos: usize = 12;
    let mut k: u16 = 0;
    while k < qd
        invariant
            k <= qd,
            pos <= resp@.len() + 4,
            resp@.len() + 4 <= usize::MAX,
            after_questions(resp@, 12, qd as nat) == after_questions(resp@, pos as int, (qd - k) as nat),
            resp@.len() >= 12,
            u16_at(resp@, 0) == want_id,
            resp@[2] >= 0x80,
            resp@[3] % 16 == 0,
            qd == u16_at(resp@, 4),
        decreases qd - k,
    {
        match skip_name(resp, pos) {
            Ok(p) => {
                pos = p + 4;
            },
            Err(e) => {
                return Err(e);
            },
        }
        k = k + 1;
    }
    let ghost start = pos as int;
    let mut ips: Vec<[u8; 4]> = Vec::new();
    let mut ttl: u64 = TTL_MAX;
    let mut j: u16 = 0;
    assert(octets(ips@) =~= seq![]);
    while j < an
        invariant
            j <= an,
            pos <= resp@.len() + 4,
            resp@.len() + 4 <= usize::MAX,
            ttl <= TTL_MAX,
            read_records(resp@, start, an as nat, Found { ips: seq![], ttl: TTL_MAX as int }) == read_records(
                resp@,
                pos as int,
                (an - j) as nat,
                Found { ips: octets(ips@), ttl: ttl as int },
            ),
            after_questions(resp@, 12, qd as nat) == Ok::<int, DnsError>(start),
            resp@.len() >= 12,
            u16_at(resp@, 0) == want_id,
            resp@[2] >= 0x80,
            resp@[3] % 16 == 0,
            qd == u16_at(resp@, 4),
            an == u16_at(resp@, 6),
        decreases an - j,
    {
        let p: usize = match skip_name(resp, pos) {
            Ok(p) => p,
            Err(e) => {
                return Err(e);
            },
        };
        if resp.len() - p < 10 {
            return Err(DnsError::AnswerTruncated);
        }
        let rtype: u16 = read_u16(resp, p);
        let life: u32 = read_u32(resp, p + 4);
        let len: usize = read_u16(resp, p + 8) as usize;
        if resp.len() - p - 10 < len {
            return Err(DnsError::DataTruncated);
        }
        if rtype == 1 && len == 4 {
            let o: [u8; 4] = [resp[p + 10], resp[p + 11], resp[p + 12], resp[p + 13]];
            let ghost before = ips@;
            assert(o@ =~= resp@.subrange(p + 10, p + 14));
            ips.push(o);
            assert(octets(ips@) =~= octets(before).push(o@));
            if (life as u64) < ttl {
                ttl = life as u64;
            }
        }
        pos = p + 10 + len;
        j = j + 1;
    }
    if ips.len() == 0 {
        return Err(DnsError::NoRecords);
    }
    let kept: u64 = if ttl < TTL_MIN {
        TTL_MIN
    } else {
        ttl
    };
    Ok((ips, kept))
}

/// The resolver of one tunnel.
pub struct TunnelDns {
    pub server: SocketAddr,
    pub cache: Table<String, Cached<Vec<[u8; 4]>>>,
}

/// What to do to resolve a name.
pub enum Lookup {
    /// The address is known.
    Known(SocketAddr),
    /// The server has to be asked with these bytes.
    Ask(Vec<u8>),
    /// No query can be built for the name.
    Failed(DnsError),
}

impl TunnelDns {
    /// No name is listed twice, and every cached answer holds an address.
    pub open spec fn wf(&self) -> bool {
        self.cache.wf() && forall|k: Seq<char>|
            #[trigger] self.cache@.dom().contains(k) ==> self.cache@[k].value@.len() > 0
    }

    /// A resolver with an empty cache; the server listens on port 53.
    pub fn new(server: IpAddr) -> (r: TunnelDns)
        ensures
            r.wf(),
            r.server@ == socket_of(server@, 53),
            r.cache@ == Map::<Seq<char>, Cached<Vec<[u8; 4]>>>::empty(),
    {
        TunnelDns { server: SocketAddr::new(server, 53), cache: Table::new() }
    }

    /// The first cached address of a name that has not expired.
    pub fn cached(&self, name: &String, now_ms: u64) -> (r: Option<[u8; 4]>)
        requires
            self.wf(),
        ensures
            match r {
                Some(o) => self.cache@.dom().contains(name@) && self.cache@[name@].expires_ms > now_ms && o
                    == self.cache@[name@].value@[0],
                None => !(self.cache@.dom().contains(name@) && self.cache@[name@].expires_ms > now_ms),
            },
    {
        match self.cache.get(name) {
            Some(c) => {
                if c.expires_ms > now_ms {
                    Some(c.value[0])
                } else {
                    None
                }
            },
            None => None,
        }
    }

    /// Remembers an answer for its lifetime.
    pub fn store(&mut self, name: String, ips: Vec<[u8; 4]>, ttl: u64, now_ms: u64)
        requires
            old(self).wf(),
            ips@.len() > 0,
            now_ms + 1000 * ttl <= u64::MAX,
        ensures
            final(self).wf(),
            final(self).server == old(self).server,
            final(self).cache@ == with_room(old(self).cache@, now_ms, CACHE_CAP as nat).insert(
                name@,
                (Cached { value: ips, expires_ms: (now_ms + 1000 * ttl) as u64 }),
            ),
    {
        make_room(&mut self.cache, now_ms, CACHE_CAP);
        self.cache.insert(name, Cached { value: ips, expires_ms: now_ms + 1000 * ttl });
    }

    /// How a name is resolved: an address stands for itself, a cached name for its first address, and
    /// for any other name the server is asked, in a query with this number.
    pub open spec fn looks_up(&self, r: Lookup, name: Seq<char>, port: u16, id: u16, now_ms: u64) -> bool {
        if ip_text(name) is Some {
            r matches Lookup::Known(a) && a@ == socket_of(ip_text(name)->0, port)
        } else if self.cache@.dom().contains(name) && self.cache@[name].expires_ms > now_ms {
            r matches Lookup::Known(a) && a == SocketAddr::V4(self.cache@[name].value@[0], port)
        } else {
            match labels_bytes(pieces(name, '.')) {
                Ok(l) => r matches Lookup::Ask(q) && q@ == query_bytes(id, l, 1),
                Err(l) => r matches Lookup::Failed(DnsError::LabelTooLong(x)) && x@ == l,
            }
        }
    }

    /// Decides how a name is resolved: an address stands for itself, a cached name for its first
    /// address, and for any other name the server is asked.
    pub fn lookup(&self, name: &String, port: u16, id: u16, now_ms: u64) -> (r: Lookup)
        requires
            self.wf(),
        ensures
            self.looks_up(r, name@, port, id, now_ms),
    {
        match parse_ip_str(name.as_str()) {
            Some(ip) => {
                return Lookup::Known(SocketAddr::new(ip, port));
            },
            None => {},
        }
        match self.cached(name, now_ms) {
            Some(o) => {
                return Lookup::Known(SocketAddr::V4(o, port));
            },
            None => {},
        }
        match build_query(id, name.as_str()) {
            Ok(q) => Lookup::Ask(q),
            Err(e) => Lookup::Failed(e),
        }
    }

    /// Decides how a name is resolved, and draws the number of the query where the server is asked.
    pub fn ask(&self, name: &String, port: u16, now_ms: u64) -> (r: (u16, Lookup))
        requires
            self.wf(),
        ensures
            self.looks_up(r.1, name@, port, r.0, now_ms),
    {
        let id: u16 = random_u16(0, u16::MAX);
        (id, self.lookup(name, port, id, now_ms))
    }

    /// Takes in the answer to a query: a good one is remembered and its first address returned.
    pub fn on_answer(&mut self, name: String, port: u16, resp: &[u8], id: u16, now_ms: u64) -> (r: Result<
        SocketAddr,
        DnsError,
    >)
        requires
            old(self).wf(),
            now_ms + 1000 * TTL_MAX <= u64::MAX,
            resp@.len() + 4 <= usize::MAX,
        ensures
            final(self).wf(),
            final(self).server == old(self).server,
            match answer(resp@, id) {
                Err(e) => (r matches Err(x) && x == e) && final(self).cache == old(self).cache,
                Ok(f) => (r matches Ok(a) && a@ == SocketView::V4(f.ips[0], port)) && final(self).cache@.dom().contains(
                    name@,
                ) && octets(final(self).cache@[name@].value@) == f.ips && final(self).cache@[name@].expires_ms == now_ms
                    + 1000 * f.ttl && final(self).cache@.remove(name@) == with_room(
                    old(self).cache@,
                    now_ms,
                    CACHE_CAP as nat,
                ).remove(name@),
            },
    {
        match parse_a_records(resp, id) {
            Err(e) => Err(e),
            Ok(x) => {
                let first: [u8; 4] = x.0[0];
                assert(octets(x.0@)[0] == first@);
                self.store(name, x.0, x.1, now_ms);
                assert(self.cache@.remove(name@) =~= with_room(old(self).cache@, now_ms, CACHE_CAP as nat).remove(name@));
                Ok(SocketAddr::V4(first, port))
            },
        }
    }
}

/// A whole encoded name: labels of one to sixty-three bytes, each behind its length, and then a zero
/// byte or a pointer of two bytes.
pub open spec fn is_name(n: Seq<u8>) -> bool
    decreases n.len(),
{
    n.len() > 0 && if n[0] == 0 {
        n.len() == 1
    } else if n[0] >= 0xc0 {
        n.len() == 2
    } else {
        n[0] < 0x40 && n.len() > 1 + n[0] && is_name(n.skip(1 + n[0]))
    }
}

proof fn lemma_name_read(msg: Seq<u8>, pos: int, n: Seq<u8>)
    requires
        0 <= pos,
        pos + n.len() <= msg.len(),
        msg.subrange(pos, pos + n.len()) == n,
        is_name(n),
    ensures
        name_end(msg, pos) == Ok::<int, DnsError>(pos + n.len()),
    decreases n.len(),
{
    assert(msg[pos] == n[0]);
    if n[0] != 0 && n[0] < 0xc0 {
        let k = 1 + n[0];
        assert(msg.subrange(pos + k, pos + n.len()) =~= n.skip(k));
        lemma_name_read(msg, pos + k, n.skip(k));
    }
}

/// A record of an answer: its name, type, class, lifetime and data.
pub struct DnsRecord {
    pub name: Seq<u8>,
    pub kind: u16,
    pub class: u16,
    pub life: u32,
    pub data: Seq<u8>,
}

/// A record as it stands in a message.
#[verifier::opaque]
pub open spec fn record_bytes(r: DnsRecord) -> Seq<u8> {
    r.name + be16(r.kind) + be16(r.class) + be32(r.life) + be16(r.data.len() as u16) + r.data
}

/// Records as they stand in a message, one behind another.
pub open spec fn records_bytes(rs: Seq<DnsRecord>) -> Seq<u8>
    decreases rs.len(),
{
    if rs.len() == 0 {
        seq![]
    } else {
        record_bytes(rs[0]) + records_bytes(rs.drop_first())
    }
}

/// Each record has a whole name, and its data is no longer than a record can say.
pub open spec fn whole_records(rs: Seq<DnsRecord>) -> bool {
    forall|i: int| 0 <= i < rs.len() ==> is_name((#[trigger] rs[i]).name) && rs[i].data.len() <= 65535
}

/// The addresses among records: the data of those of type 1 that have four bytes, in their order.
pub open spec fn address_data(rs: Seq<DnsRecord>) -> Seq<Seq<u8>>
    decreases rs.len(),
{
    if rs.len() == 0 {
        seq![]
    } else if rs[0].kind == 1 && rs[0].data.len() == 4 {
        seq![rs[0].data] + address_data(rs.drop_first())
    } else {
        address_data(rs.drop_first())
    }
}

/// The smallest lifetime of the addresses among records, and `most` at the most.
pub open spec fn least_life(rs: Seq<DnsRecord>, most: int) -> int
    decreases rs.len(),
{
    if rs.len() == 0 {
        most
    } else if rs[0].kind == 1 && rs[0].data.len() == 4 && rs[0].life < most {
        least_life(rs.drop_first(), rs[0].life as int)
    } else {
        least_life(rs.drop_first(), most)
    }
}

/// Where the parts of a record stand in a message.
pub proof fn lemma_record_fields(front: Seq<u8>, r: DnsRecord, tail: Seq<u8>)
    requires
        is_name(r.name),
        r.data.len() <= 65535,
    ensures
        ({
            let msg = front + record_bytes(r) + tail;
            let n = front.len() as int;
            let p = n + r.name.len();
            &&& record_bytes(r).len() == r.name.len() + 10 + r.data.len()
            &&& msg.subrange(n, p) == r.name
            &&& u16_at(msg, p) == r.kind
            &&& u32_at(msg, p + 4) == r.life
            &&& u16_at(msg, p + 8) == r.data.len()
            &&& msg.subrange(p + 10, p + 10 + r.data.len()) == r.data
        }),
{
    reveal(record_bytes);
    let msg = front + record_bytes(r) + tail;
    let n = front.len() as int;
    let p = n + r.name.len();
    assert(msg.subrange(n, p) =~= r.name);
    assert(msg.subrange(p, p + 2) =~= be16(r.kind));
    lemma_be16_at(r.kind, msg, p);
    assert(msg.subrange(p + 4, p + 8) =~= be32(r.life));
    lemma_be32_at(r.life, msg, p + 4);
    assert(msg.subrange(p + 8, p + 10) =~= be16(r.data.len() as u16));
    lemma_be16_at(r.data.len() as u16, msg, p + 8);
    assert(msg.subrange(p + 10, p + 10 + r.data.len()) =~= r.data);
}

/// Whatever the types of the records of an answer: the addresses that are read are exactly the data of
/// the address records, in their order, and records of other types change nothing.
pub proof fn law_records_read(front: Seq<u8>, rs: Seq<DnsRecord>, behind: Seq<u8>, acc: Found)
    requires
        whole_records(rs),
    ensures
        read_records(front + records_bytes(rs) + behind, front.len() as int, rs.len(), acc) == Ok::<Found, DnsError>(
            Found { ips: acc.ips + address_data(rs), ttl: least_life(rs, acc.ttl) },
        ),
    decreases rs.len(),
{
    let msg = front + records_bytes(rs) + behind;
    if rs.len() == 0 {
        assert(acc.ips + address_data(rs) =~= acc.ips);
    } else {
        let r = rs[0];
        let rest = rs.drop_first();
        let rb = record_bytes(r);
        let n = front.len() as int;
        assert(is_name(rs[0].name));
        lemma_record_fields(front, r, records_bytes(rest) + behind);
        assert(msg =~= front + rb + (records_bytes(rest) + behind));
        lemma_name_read(msg, n, r.name);
        let p = n + r.name.len();
        assert(msg =~= (front + rb) + records_bytes(rest) + behind);
        assert((front + rb).len() == p + 10 + r.data.len());
        assert(whole_records(rest)) by {
            assert forall|i: int| 0 <= i < rest.len() implies is_name((#[trigger] rest[i]).name) && rest[i].data.len()
                <= 65535 by {
                assert(rest[i] == rs[i + 1]);
            }
        }
        if r.kind == 1 && r.data.len() == 4 {
            let next = Found {
                ips: acc.ips.push(r.data),
                ttl: if r.life < acc.ttl {
                    r.life as int
                } else {
                    acc.ttl
                },
            };
            law_records_read(front + rb, rest, behind, next);
            assert(acc.ips + address_data(rs) =~= next.ips + address_data(rest));
        } else {
            law_records_read(front + rb, rest, behind, acc);
        }
    }
}

/// Questions as they stand in a message: a name, a type and a class each.
pub open spec fn questions_bytes(qs: Seq<(Seq<u8>, u16, u16)>) -> Seq<u8>
    decreases qs.len(),
{
    if qs.len() == 0 {
        seq![]
    } else {
        qs[0].0 + be16(qs[0].1) + be16(qs[0].2) + questions_bytes(qs.drop_first())
    }
}

proof fn lemma_questions_read(front: Seq<u8>, qs: Seq<(Seq<u8>, u16, u16)>, behind: Seq<u8>)
    requires
        forall|i: int| 0 <= i < qs.len() ==> is_name((#[trigger] qs[i]).0),
    ensures
        after_questions(front + questions_bytes(qs) + behind, front.len() as int, qs.len()) == Ok::<int, DnsError>(
            (front.len() + questions_bytes(qs).len()) as int,
        ),
    decreases qs.len(),
{
    if qs.len() > 0 {
        let msg = front + questions_bytes(qs) + behind;
        let q = qs[0];
        let n = front.len() as int;
        assert(is_name(qs[0].0));
        assert(msg.subrange(n, n + q.0.len()) =~= q.0);
        lemma_name_read(msg, n, q.0);
        let qb = q.0 + be16(q.1) + be16(q.2);
        let rest = qs.drop_first();
        assert(msg =~= (front + qb) + questions_bytes(rest) + behind);
        assert forall|i: int| 0 <= i < rest.len() implies is_name((#[trigger] rest[i]).0) by {
            assert(rest[i] == qs[i + 1]);
        }
        lemma_questions_read(front + qb, rest, behind);
    }
}

/// The head of a message: its number, its two bytes of flags, how many questions and records there are,
/// and four bytes more.
pub open spec fn message_head(id: u16, flags: (u8, u8), questions: u16, records: u16, more: Seq<u8>) -> Seq<u8> {
    be16(id) + seq![flags.0, flags.1] + be16(questions) + be16(records) + more
}

/// A good answer to a query, with any questions and any records in it and anything behind them: the
/// addresses are the data of its address records, kept for the smallest of their lifetimes, but no
/// less than five seconds and no more than an hour. One without an address record is refused.
pub proof fn law_answer_read(
    id: u16,
    flags: (u8, u8),
    more: Seq<u8>,
    qs: Seq<(Seq<u8>, u16, u16)>,
    rs: Seq<DnsRecord>,
    behind: Seq<u8>,
)
    requires
        flags.0 >= 0x80,
        flags.1 % 16 == 0,
        more.len() == 4,
        qs.len() <= 65535,
        rs.len() <= 65535,
        forall|i: int| 0 <= i < qs.len() ==> is_name((#[trigger] qs[i]).0),
        whole_records(rs),
    ensures
        ({
            let msg = message_head(id, flags, qs.len() as u16, rs.len() as u16, more) + questions_bytes(qs)
                + records_bytes(rs) + behind;
            let life = least_life(rs, 3600);
            answer(msg, id) == if address_data(rs).len() == 0 {
                Err::<Found, DnsError>(DnsError::NoRecords)
            } else {
                Ok::<Found, DnsError>(
                    Found {
                        ips: address_data(rs),
                        ttl: if life < 5 {
                            5
                        } else {
                            life
                        },
                    },
                )
            }
        }),
{
    let head = message_head(id, flags, qs.len() as u16, rs.len() as u16, more);
    let msg = head + questions_bytes(qs) + records_bytes(rs) + behind;
    assert(head.len() == 12);
    assert(msg.subrange(0, 2) =~= be16(id));
    lemma_be16_at(id, msg, 0);
    assert(msg[2] == flags.0 && msg[3] == flags.1);
    assert(msg.subrange(4, 6) =~= be16(qs.len() as u16));
    lemma_be16_at(qs.len() as u16, msg, 4);
    assert(msg.subrange(6, 8) =~= be16(rs.len() as u16));
    lemma_be16_at(rs.len() as u16, msg, 6);
    assert(msg =~= head + questions_bytes(qs) + (records_bytes(rs) + behind));
    lemma_questions_read(head, qs, records_bytes(rs) + behind);
    let none = Found { ips: seq![], ttl: 3600 };
    law_records_read(head + questions_bytes(qs), rs, behind, none);
    assert(none.ips + address_data(rs) =~= address_data(rs));
}

/// Records that are no addresses change nothing, wherever they stand.
pub proof fn law_other_records_ignored(a: Seq<DnsRecord>, r: DnsRecord, b: Seq<DnsRecord>, most: int)
    requires
        r.kind != 1 || r.data.len() != 4,
    ensures
        address_data(a + seq![r] + b) == address_data(a + b),
        least_life(a + seq![r] + b, most) == least_life(a + b, most),
    decreases a.len(),
{
    if a.len() == 0 {
        assert((a + seq![r] + b).drop_first() =~= b);
        assert(a + b =~= b);
    } else {
        assert((a + seq![r] + b).drop_first() =~= a.drop_first() + seq![r] + b);
        assert((a + b).drop_first() =~= a.drop_first() + b);
        law_other_records_ignored(a.drop_first(), r, b, most);
        law_other_records_ignored(
            a.drop_first(),
            r,
            b,
            if a[0].kind == 1 && a[0].data.len() == 4 && a[0].life < most {
                a[0].life as int
            } else {
                most
            },
        );
    }
}

/// What is no good answer to a query is refused, each for its own reason: too short a message, another
/// number, a query, a name that does not exist, and any other failure.
pub proof fn law_bad_answers_refused(msg: Seq<u8>, id: u16)
    ensures
        msg.len() < 12 ==> answer(msg, id) == Err::<Found, DnsError>(DnsError::TooShort),
        msg.len() >= 12 && 256 * msg[0] + msg[1] != id ==> answer(msg, id) == Err::<Found, DnsError>(
            DnsError::IdMismatch,
        ),
        msg.len() >= 12 && 256 * msg[0] + msg[1] == id && msg[2] < 0x80 ==> answer(msg, id) == Err::<Found, DnsError>(
            DnsError::NotResponse,
        ),
        msg.len() >= 12 && 256 * msg[0] + msg[1] == id && msg[2] >= 0x80 && msg[3] % 16 == 3 ==> answer(msg, id)
            == Err::<Found, DnsError>(DnsError::NxDomain),
        msg.len() >= 12 && 256 * msg[0] + msg[1] == id && msg[2] >= 0x80 && msg[3] % 16 != 3 && msg[3] % 16 != 0
            ==> answer(msg, id) == Err::<Found, DnsError>(DnsError::Rcode((msg[3] % 16) as u8)),
        answer(msg, id) matches Ok(f) ==> f.ips.len() > 0 && 5 <= f.ttl <= 3600,
{
    if answer(msg, id) is Ok {
        let p = after_questions(msg, 12, u16_at(msg, 4) as nat)->Ok_0;
        lemma_life_bound(msg, p, u16_at(msg, 6) as nat, Found { ips: seq![], ttl: 3600 });
    }
}

proof fn lemma_life_bound(msg: Seq<u8>, pos: int, n: nat, acc: Found)
    ensures
        read_records(msg, pos, n, acc) matches Ok(f) ==> f.ttl <= acc.ttl,
    decreases n,
{
    if n > 0 && name_end(msg, pos) is Ok {
        let p = name_end(msg, pos)->Ok_0;
        let len = u16_at(msg, p + 8);
        let ttl = u32_at(msg, p + 4);
        let took = Found {
            ips: acc.ips.push(msg.subrange(p + 10, p + 14)),
            ttl: if ttl < acc.ttl {
                ttl
            } else {
                acc.ttl
            },
        };
        lemma_life_bound(msg, p + 14, (n - 1) as nat, took);
        lemma_life_bound(msg, p + 10 + len, (n - 1) as nat, acc);
    }
}

/// The labels of an encoded name without pointers.
pub open spec fn name_labels(n: Seq<u8>) -> Seq<Seq<u8>>
    decreases n.len(),
{
    if n.len() == 0 || n[0] == 0 || n[0] >= 0xc0 || n.len() <= n[0] {
        seq![]
    } else {
        seq![n.subrange(1, 1 + n[0])] + name_labels(n.skip(1 + n[0]))
    }
}

/// The non-empty labels of a name, encoded.
pub open spec fn label_list(p: Seq<Seq<char>>) -> Seq<Seq<u8>>
    decreases p.len(),
{
    if p.len() == 0 {
        seq![]
    } else if p[0].len() == 0 {
        label_list(p.drop_first())
    } else {
        seq![encode_utf8(p[0])] + label_list(p.drop_first())
    }
}

proof fn lemma_labels_front(p: Seq<Seq<char>>)
    requires
        p.len() > 0,
    ensures
        encode_utf8(p[0]).len() > 63 && p[0].len() > 0 ==> labels_bytes(p) == Err::<Seq<u8>, Seq<char>>(p[0]),
        !(encode_utf8(p[0]).len() > 63 && p[0].len() > 0) ==> labels_bytes(p) == match labels_bytes(p.drop_first()) {
            Err(l) => Err::<Seq<u8>, Seq<char>>(l),
            Ok(rest) => Ok(if p[0].len() == 0 {
                rest
            } else {
                label_bytes(p[0]) + rest
            }),
        },
    decreases p.len(),
{
    if p.len() == 1 {
        assert(p.drop_last() =~= seq![]);
        assert(p.drop_first() =~= seq![]);
        assert(labels_bytes(seq![]) == Ok::<Seq<u8>, Seq<char>>(seq![]));
        assert(seq![] + label_bytes(p[0]) =~= label_bytes(p[0]) + seq![]);
    } else {
        let q = p.drop_last();
        lemma_labels_front(q);
        assert(q.drop_first() =~= p.drop_first().drop_last());
        assert(q[0] == p[0]);
        assert(p.drop_first().last() == p.last());
        match labels_bytes(q.drop_first()) {
            Err(_) => {},
            Ok(rest) => {
                assert((label_bytes(p[0]) + rest) + label_bytes(p.last()) =~= label_bytes(p[0]) + (rest + label_bytes(
                    p.last(),
                )));
            },
        }
    }
}

/// The name in a query is a whole name whose labels are those of the name that is asked for, empty ones
/// left out; it is refused exactly where one of them is longer than sixty-three bytes.
pub proof fn law_query_name(p: Seq<Seq<char>>)
    ensures
        labels_bytes(p) is Err <==> exists|i: int| 0 <= i < p.len() && encode_utf8(#[trigger] p[i]).len() > 63,
        labels_bytes(p) matches Ok(l) ==> is_name(l + seq![0u8]) && name_labels(l + seq![0u8]) == label_list(p),
    decreases p.len(),
{
    if p.len() == 0 {
        assert(seq![] + seq![0u8] =~= seq![0u8]);
    } else {
        let rest = p.drop_first();
        lemma_labels_front(p);
        law_query_name(rest);
        lemma_label_empty(p[0]);
        if encode_utf8(p[0]).len() <= 63 {
            if labels_bytes(rest) is Err {
                let i = choose|i: int| 0 <= i < rest.len() && encode_utf8(#[trigger] rest[i]).len() > 63;
                assert(p[i + 1] == rest[i]);
            }
            assert forall|i: int| 0 <= i < p.len() && encode_utf8(#[trigger] p[i]).len() > 63 implies labels_bytes(
                rest,
            ) is Err by {
                assert(rest[i - 1] == p[i]);
            }
            if labels_bytes(rest) is Ok && p[0].len() > 0 {
                let e = encode_utf8(p[0]);
                let r = labels_bytes(rest)->Ok_0;
                let n = (label_bytes(p[0]) + r) + seq![0u8];
                assert(n[0] == e.len() as u8);
                assert(n.skip(1 + e.len() as int) =~= r + seq![0u8]);
                assert(n.subrange(1, 1 + e.len() as int) =~= e);
            }
        } else {
            assert(encode_utf8(p[0]).len() > 63);
        }
    }
}

/// A query as it stands in a message: one question with recursion wanted, for the addresses of a name.
pub proof fn law_query_layout(id: u16, labels: Seq<u8>)
    ensures
        query_bytes(id, labels, 1) == message_head(id, (1, 0), 1, 0, seq![0u8, 0, 0, 0]) + questions_bytes(
            seq![(labels + seq![0u8], 1u16, 1u16)],
        ),
{
    let q = seq![(labels + seq![0u8], 1u16, 1u16)];
    assert(q.drop_first() =~= seq![]);
    assert(questions_bytes(seq![]) =~= seq![]);
    reveal_with_fuel(questions_bytes, 2);
    assert(query_bytes(id, labels, 1) =~= message_head(id, (1, 0), 1, 0, seq![0u8, 0, 0, 0]) + questions_bytes(q));
}

impl TunnelDns {
    /// How names are resolved: an address stands for itself; a name for its first address as long as its
    /// answer is kept, and then the server is asked for it again.
    pub proof fn law_lookup(&self, r: Lookup, name: Seq<char>, port: u16, id: u16, now_ms: u64)
        requires
            self.looks_up(r, name, port, id, now_ms),
        ensures
            ip_text(name) matches Some(ip) ==> (r matches Lookup::Known(a) && a@ == socket_of(ip, port)),
            ip_text(name) is None && self.cache@.dom().contains(name) && now_ms < self.cache@[name].expires_ms ==> (
            r matches Lookup::Known(a) && a@ == SocketView::V4(self.cache@[name].value@[0]@, port)),
            ip_text(name) is None && (!self.cache@.dom().contains(name) || self.cache@[name].expires_ms <= now_ms) ==> !(
            r is Known),
    {
    }
}

} // verus!
