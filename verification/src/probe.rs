//! Probing a server: whether it can be reached, whether it accepts the password, and how long that
//! takes.

use vstd::prelude::*;
use vstd::utf8::encode_utf8;

use crate::address::{frame_target, target_header};
use crate::mixed::{head_lines, lemma_head_lines};
use crate::seqs::{last_index, lemma_last_index_bounds, lemma_until_is, until};
use crate::text::{
    chars_of, copy_chars, decimal, find_char, has_prefix, is_digit, law_decimal_roundtrip, lemma_colon_port,
    lemma_decimal_value, lines, parse_uint, push_chars, push_decimal, push_text, rfind_char, starts_with, string_of,
    uint_text,
};
use crate::wire::{copy_range, same_bytes};

verus! {

/// What a probe found, with times in milliseconds.
pub enum ProbeOutcome {
    /// The server works. The time to connect, the time to authenticate, and the time to fetch something
    /// through it, where that was tried and worked.
    Works { tcp_ms: u64, handshake_ms: u64, http_ms: Option<u64> },
    /// The server answers, but has not shown that it accepts the password.
    Unconfirmed { tcp_ms: u64, note: String },
    /// The server does not work.
    Fail(String),
}

/// The longest that the handshake of a probe may take, in seconds.
pub fn handshake_timeout(secs: u64) -> (r: u64)
    ensures
        r == (if secs < 15 {
            15
        } else {
            secs
        }),
{
    if secs < 15 {
        15
    } else {
        secs
    }
}

/// The longest that the proof of authentication may take, in seconds.
pub fn auth_timeout(secs: u64) -> (r: u64)
    ensures
        r == (if secs > 3 {
            3
        } else {
            secs
        }),
{
    if secs > 3 {
        3
    } else {
        secs
    }
}

/// The host and the port in the first part of an address, before the path.
pub open spec fn authority(a: Seq<char>) -> Option<(Seq<char>, u16)> {
    if a.len() > 0 && a[0] == '[' {
        let inner = a.skip(1);
        let c = until(inner, ']');
        if c >= inner.len() || c == 0 {
            None
        } else {
            let after = inner.skip(c + 1);
            let host = seq!['['] + inner.take(c) + seq![']'];
            if after.len() == 0 {
                Some((host, 80))
            } else if after[0] != ':' {
                None
            } else {
                match uint_text(after.skip(1), 65535) {
                    Some(p) => Some((host, p as u16)),
                    None => None,
                }
            }
        }
    } else {
        let i = last_index(a, ':');
        if i < 0 {
            Some((a, 80))
        } else {
            match uint_text(a.skip(i + 1), 65535) {
                Some(p) => Some((a.take(i), p as u16)),
                None => None,
            }
        }
    }
}

/// The host, the port and the path of an address that is fetched. Only plain HTTP is; the port is
/// eighty and the path a slash where none is given.
pub open spec fn probe_url(url: Seq<char>) -> Option<(Seq<char>, u16, Seq<char>)> {
    if !has_prefix(url, "http://"@) {
        None
    } else {
        let rest = url.skip(7);
        let e = until(rest, '/');
        let path = if e < rest.len() {
            rest.skip(e)
        } else {
            "/"@
        };
        match authority(rest.take(e)) {
            None => None,
            Some(hp) => if hp.0.len() == 0 {
                None
            } else {
                Some((hp.0, hp.1, path))
            },
        }
    }
}

fn split_authority(a: &[char]) -> (r: Option<(Vec<char>, u16)>)
    ensures
        match r {
            Some(x) => authority(a@) == Some((x.0@, x.1)),
            None => authority(a@) is None,
        },
{
    if a.len() > 0 && a[0] == '[' {
        let inner: Vec<char> = copy_chars(a, 1, a.len());
        assert(inner@ =~= a@.skip(1));
        let c: usize = find_char(inner.as_slice(), ']');
        if c >= inner.len() || c == 0 {
            return None;
        }
        let after: Vec<char> = copy_chars(inner.as_slice(), c + 1, inner.len());
        assert(after@ =~= inner@.skip(c + 1));
        let addr: Vec<char> = copy_chars(inner.as_slice(), 0, c);
        assert(addr@ =~= inner@.take(c as int));
        let mut host: Vec<char> = Vec::new();
        host.push('[');
        push_chars(&mut host, addr.as_slice());
        host.push(']');
        assert(host@ =~= seq!['['] + addr@ + seq![']']);
        if after.len() == 0 {
            return Some((host, 80));
        }
        if after[0] != ':' {
            return None;
        }
        let digits: Vec<char> = copy_chars(after.as_slice(), 1, after.len());
        assert(digits@ =~= after@.skip(1));
        match parse_uint(digits.as_slice(), 65535) {
            Some(p) => Some((host, p as u16)),
            None => None,
        }
    } else {
        proof {
            lemma_last_index_bounds(a@, ':');
        }
        match rfind_char(a, ':') {
            None => {
                let host: Vec<char> = copy_chars(a, 0, a.len());
                assert(host@ =~= a@);
                Some((host, 80))
            },
            Some(i) => {
                let digits: Vec<char> = copy_chars(a, i + 1, a.len());
                assert(digits@ =~= a@.skip(i + 1));
                match parse_uint(digits.as_slice(), 65535) {
                    Some(p) => {
                        let host: Vec<char> = copy_chars(a, 0, i);
                        assert(host@ =~= a@.take(i as int));
                        Some((host, p as u16))
                    },
                    None => None,
                }
            },
        }
    }
}

/// Reads an address that is fetched: its host, its port and its path.
pub fn parse_http_probe_url(url: &str) -> (r: Option<(String, u16, String)>)
    ensures
        match r {
            Some(x) => probe_url(url@) == Some((x.0@, x.1, x.2@)),
            None => probe_url(url@) is None,
        },
{
    let c: Vec<char> = chars_of(url);
    if !starts_with(c.as_slice(), "http://") {
        return None;
    }
    proof {
        reveal_strlit("http://");
    }
    let rest: Vec<char> = copy_chars(c.as_slice(), 7, c.len());
    assert(rest@ =~= url@.skip(7));
    let e: usize = find_char(rest.as_slice(), '/');
    let path: Vec<char> = if e < rest.len() {
        copy_chars(rest.as_slice(), e, rest.len())
    } else {
        chars_of("/")
    };
    assert(path@ =~= if e < rest@.len() {
        rest@.skip(e as int)
    } else {
        "/"@
    });
    let auth: Vec<char> = copy_chars(rest.as_slice(), 0, e);
    assert(auth@ =~= rest@.take(e as int));
    match split_authority(auth.as_slice()) {
        None => None,
        Some(hp) => {
            if hp.0.len() == 0 {
                return None;
            }
            Some((string_of(hp.0.as_slice()), hp.1, string_of(path.as_slice())))
        },
    }
}

/// The request that is sent through the tunnel.
pub open spec fn probe_request(host: Seq<char>, path: Seq<char>) -> Seq<char> {
    "GET "@ + path + " HTTP/1.0\r\nHost: "@ + host + "\r\nUser-Agent: mirage-probe\r\nConnection: close\r\n\r\n"@
}

/// What is sent through the tunnel: the target, and the request.
pub struct FetchPlan {
    pub header: Vec<u8>,
    pub request: String,
}

/// Works out what is sent through the tunnel to fetch an address; `None` where it cannot be fetched.
pub fn plan_fetch(url: &str) -> (r: Option<FetchPlan>)
    ensures
        match probe_url(url@) {
            None => r is None,
            Some(x) => r matches Some(p) && p.header@ == target_header(x.0 + seq![':'] + decimal(x.1 as nat))
                && p.request@ == probe_request(x.0, x.2),
        },
{
    match parse_http_probe_url(url) {
        None => None,
        Some(x) => {
            let mut target: Vec<char> = Vec::new();
            push_text(&mut target, x.0.as_str());
            target.push(':');
            push_decimal(&mut target, x.1 as u64);
            assert(target@ =~= x.0@ + seq![':'] + decimal(x.1 as nat));
            let target: String = string_of(target.as_slice());
            let mut req: Vec<char> = Vec::new();
            push_text(&mut req, "GET ");
            push_text(&mut req, x.2.as_str());
            push_text(&mut req, " HTTP/1.0\r\nHost: ");
            push_text(&mut req, x.0.as_str());
            push_text(&mut req, "\r\nUser-Agent: mirage-probe\r\nConnection: close\r\n\r\n");
            assert(req@ =~= probe_request(x.0@, x.2@));
            Some(FetchPlan { header: frame_target(target.as_str()), request: string_of(req.as_slice()) })
        },
    }
}

/// Whether an answer is one of HTTP.
pub fn is_http_answer(data: &[u8]) -> (r: bool)
    ensures
        r == has_prefix(data@, encode_utf8("HTTP/"@)),
{
    let p: &[u8] = "HTTP/".as_bytes();
    if p.len() > data.len() {
        return false;
    }
    let head: Vec<u8> = copy_range(data, 0, p.len());
    assert(head@ =~= data@.take(p@.len() as int));
    same_bytes(head.as_slice(), p)
}

/// How the proof of authentication turned out.
pub enum AuthResult {
    /// The server's first message could be opened.
    Opened,
    /// It could not; the text says why.
    Failed(String),
    /// None came in time.
    Late,
}

/// The outcome of a probe whose server could be reached, from how the proof of authentication turned
/// out. Only a server whose first message could be opened works.
pub fn judge_probe(auth: AuthResult, tcp_ms: u64, handshake_ms: u64, http_ms: Option<u64>) -> (r: ProbeOutcome)
    ensures
        match auth {
            AuthResult::Opened => r == (ProbeOutcome::Works { tcp_ms, handshake_ms, http_ms }),
            AuthResult::Failed(e) => r matches ProbeOutcome::Fail(m) && m@
                == "认证/首帧失败: 会话数据接收或解密错 (多为密码不符 / 非 Mirage 服务端 / 时钟偏差; 也可能服务端提前关连接): "@ + e@,
            AuthResult::Late => r matches ProbeOutcome::Unconfirmed { tcp_ms: t, note } && t == tcp_ms && note@
                == "TLS 握手可达但未收到认证确认帧 (旧服务端?)"@,
        },
{
    match auth {
        AuthResult::Opened => ProbeOutcome::Works { tcp_ms, handshake_ms, http_ms },
        AuthResult::Failed(e) => {
            let mut out: Vec<char> = Vec::new();
            push_text(
                &mut out,
                "认证/首帧失败: 会话数据接收或解密错 (多为密码不符 / 非 Mirage 服务端 / 时钟偏差; 也可能服务端提前关连接): ",
            );
            push_text(&mut out, e.as_str());
            ProbeOutcome::Fail(string_of(out.as_slice()))
        },
        AuthResult::Late => ProbeOutcome::Unconfirmed {
            tcp_ms,
            note: "TLS 握手可达但未收到认证确认帧 (旧服务端?)".to_owned(),
        },
    }
}

/// An address that is fetched gives its host, its port and its path: port eighty where none is given, and
/// a slash where there is no path.
pub proof fn law_url_read(host: Seq<char>, port: u16, path: Seq<char>)
    requires
        host.len() > 0 && host[0] != '[' && !host.contains('/') && !host.contains(':'),
        path.len() == 0 || path[0] == '/',
    ensures
        ({
            let p = if path.len() == 0 {
                seq!['/']
            } else {
                path
            };
            &&& probe_url("http://"@ + host + path) == Some((host, 80u16, p))
            &&& probe_url("http://"@ + (host + seq![':'] + decimal(port as nat)) + path) == Some((host, port, p))
        }),
{
    lemma_split_url(host, path);
    lemma_last_index_bounds(host, ':');
    if last_index(host, ':') >= 0 {
        assert(host.contains(host[last_index(host, ':')]));
    }
    let hp = host + seq![':'] + decimal(port as nat);
    lemma_no_slash(host, port);
    lemma_split_url(hp, path);
    lemma_colon_port(host, port as nat);
    law_decimal_roundtrip(port as nat, 65535);
    assert(hp[0] == host[0]);
}

/// The same for a host in square brackets, which keeps them.
pub proof fn law_bracket_url_read(inner: Seq<char>, port: u16, path: Seq<char>)
    requires
        inner.len() > 0 && !inner.contains('/') && !inner.contains(']'),
        path.len() == 0 || path[0] == '/',
    ensures
        ({
            let host = seq!['['] + inner + seq![']'];
            let p = if path.len() == 0 {
                seq!['/']
            } else {
                path
            };
            &&& probe_url("http://"@ + host + path) == Some((host, 80u16, p))
            &&& probe_url("http://"@ + (host + seq![':'] + decimal(port as nat)) + path) == Some((host, port, p))
        }),
{
    let host = seq!['['] + inner + seq![']'];
    assert forall|j: int| 0 <= j < host.len() implies host[j] != '/' by {
        if 0 < j < host.len() - 1 {
            assert(host[j] == inner[j - 1]);
            assert(inner.contains(inner[j - 1]));
        }
    }
    let n = inner.len() as int;
    let a = host.skip(1);
    assert(a =~= inner + seq![']']);
    assert forall|j: int| 0 <= j < n implies inner[j] != ']' by {
        assert(inner.contains(inner[j]));
    }
    lemma_until_is(a, ']', n);
    assert(a.take(n) =~= inner);
    assert(a.skip(n + 1) =~= seq![]);
    lemma_split_url(host, path);
    let d = decimal(port as nat);
    let hp = host + seq![':'] + d;
    lemma_no_slash(host, port);
    lemma_split_url(hp, path);
    let b = hp.skip(1);
    assert(b =~= inner + seq![']'] + (seq![':'] + d));
    lemma_until_is(b, ']', n);
    assert(b.take(n) =~= inner);
    assert(b.skip(n + 1) =~= seq![':'] + d);
    assert((seq![':'] + d).skip(1) =~= d);
    law_decimal_roundtrip(port as nat, 65535);
}

proof fn lemma_no_slash(host: Seq<char>, port: u16)
    requires
        !host.contains('/'),
    ensures
        !(host + seq![':'] + decimal(port as nat)).contains('/'),
{
    lemma_decimal_value(port as nat);
    let d = decimal(port as nat);
    let hp = host + seq![':'] + d;
    assert forall|j: int| 0 <= j < hp.len() implies hp[j] != '/' by {
        if j < host.len() {
            assert(hp[j] == host[j]);
            assert(host.contains(host[j]));
        } else if j > host.len() {
            assert(hp[j] == d[j - host.len() - 1]);
            assert(is_digit(d[j - host.len() - 1]));
        }
    }
}

proof fn lemma_split_url(a: Seq<char>, path: Seq<char>)
    requires
        !a.contains('/'),
        path.len() == 0 || path[0] == '/',
    ensures
        ({
            let url = "http://"@ + a + path;
            let rest = url.skip(7);
            &&& has_prefix(url, "http://"@)
            &&& until(rest, '/') == a.len()
            &&& rest.take(a.len() as int) == a
            &&& rest.skip(a.len() as int) == path
            &&& rest.len() == a.len() + path.len()
            &&& "/"@ == seq!['/']
        }),
{
    reveal_strlit("http://");
    reveal_strlit("/");
    let url = "http://"@ + a + path;
    assert(url.take(7) =~= "http://"@);
    let rest = url.skip(7);
    assert(rest =~= a + path);
    assert forall|j: int| 0 <= j < a.len() implies rest[j] != '/' by {
        assert(rest[j] == a[j]);
        assert(a.contains(a[j]));
    }
    lemma_until_is(rest, '/', a.len() as int);
    assert(rest.take(a.len() as int) =~= a);
    assert(rest.skip(a.len() as int) =~= path);
    assert("/"@ =~= seq!['/']);
}

/// Nothing but plain HTTP is fetched, nothing without a host, and nothing with a malformed port.
pub proof fn law_not_fetched(url: Seq<char>, host: Seq<char>, port: Seq<char>, path: Seq<char>)
    requires
        path.len() == 0 || path[0] == '/',
    ensures
        url.len() < 7 || url.take(7) != "http://"@ ==> probe_url(url) is None,
        probe_url("http://"@ + path) is None,
        host.len() > 0 && host[0] != '[' && !host.contains('/') && !port.contains(':') && !port.contains('/') && uint_text(
            port,
            65535,
        ) is None ==> probe_url("http://"@ + (host + seq![':'] + port) + path) is None,
{
    reveal_strlit("http://");
    let none = Seq::<char>::empty();
    lemma_split_url(none, path);
    assert("http://"@ + none + path =~= "http://"@ + path);
    assert(last_index(none, ':') == -1);
    if host.len() > 0 && host[0] != '[' && !host.contains('/') && !port.contains(':') && !port.contains('/') {
        let t = host + seq![':'] + port;
        let n = host.len() as int;
        assert forall|j: int| 0 <= j < t.len() implies t[j] != '/' by {
            if j < n {
                assert(t[j] == host[j]);
                assert(host.contains(host[j]));
            } else if j > n {
                assert(t[j] == port[j - n - 1]);
                assert(port.contains(port[j - n - 1]));
            }
        }
        lemma_split_url(t, path);
        assert forall|j: int| n < j < t.len() implies t[j] != ':' by {
            assert(t[j] == port[j - n - 1]);
            assert(port.contains(port[j - n - 1]));
        }
        crate::seqs::lemma_last_index_is(t, ':', n);
        assert(t.skip(n + 1) =~= port);
        assert(t[0] == host[0]);
    }
}

/// The request is a head of four lines: it gets the path, names the host and asks for the connection to be
/// closed, and no body follows.
pub proof fn law_request_lines(host: Seq<char>, path: Seq<char>)
    requires
        !host.contains('\n'),
        !path.contains('\n'),
    ensures
        lines(probe_request(host, path)) == seq![
            "GET "@ + path + " HTTP/1.0"@,
            "Host: "@ + host,
            "User-Agent: mirage-probe"@,
            "Connection: close"@,
            seq![],
        ] + lines(seq![]),
{
    reveal_strlit("GET ");
    reveal_strlit(" HTTP/1.0");
    reveal_strlit("Host: ");
    reveal_strlit("User-Agent: mirage-probe");
    reveal_strlit("Connection: close");
    reveal_strlit(" HTTP/1.0\r\nHost: ");
    reveal_strlit("\r\nUser-Agent: mirage-probe\r\nConnection: close\r\n\r\n");
    let a = "GET "@ + path + " HTTP/1.0"@;
    let b = "Host: "@ + host;
    let c = "User-Agent: mirage-probe"@;
    let d = "Connection: close"@;
    let e = Seq::<char>::empty();
    let ls = seq![a, b, c, d, e];
    let rn = seq!['\r', '\n'];
    assert forall|i: int| 0 <= i < ls.len() implies !(#[trigger] ls[i]).contains('\n') by {
        let l = ls[i];
        if l.contains('\n') {
            let k = l.index_of('\n');
            assert(l[k] == '\n');
            if i == 0 && 4 <= k < 4 + path.len() {
                assert(path[k - 4] == '\n');
            }
            if i == 1 && 6 <= k {
                assert(host[k - 6] == '\n');
            }
        }
    }
    reveal_with_fuel(head_lines, 6);
    assert(ls.drop_first() =~= seq![b, c, d, e]);
    assert(seq![b, c, d, e].drop_first() =~= seq![c, d, e]);
    assert(seq![c, d, e].drop_first() =~= seq![d, e]);
    assert(seq![d, e].drop_first() =~= seq![e]);
    assert(seq![e].drop_first() =~= seq![]);
    assert(head_lines(ls) =~= a + rn + (b + rn + (c + rn + (d + rn + (e + rn)))));
    assert(rn + (c + rn + (d + rn + (e + rn)))
        =~= "\r\nUser-Agent: mirage-probe\r\nConnection: close\r\n\r\n"@);
    assert(probe_request(host, path) =~= head_lines(ls) + e);
    lemma_head_lines(ls, e);
}

} // verus!
