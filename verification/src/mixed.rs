//! An inbound for SOCKS and HTTP clients alike: HTTP requests are read, checked for a password, and
//! turned into a target and the bytes to send there.

use vstd::prelude::*;
use vstd::utf8::encode_utf8;

use crate::seqs::{
    last_index, lemma_last_index_bounds, lemma_last_index_is, lemma_until_bounds, lemma_until_is, until,
};
use crate::socks5::{opt_secrets, secrets, InboundAuth};
use crate::text::{
    chars_of, copy_chars, cut, cut_at, eq_ignore_case, find_char, has_prefix, is_white, law_cut_at_first,
    law_first_line, law_first_word, law_trimmed_kept, law_white_taken_off, lines, lossy_text, lower, push_chars,
    push_text, rfind_char, same_chars, same_ignore_case, split_lines, split_words, starts_with, string_of, trim,
    trim_end, trimmed, utf8_lossy, words,
};
use crate::wire::{copy_range, find_bytes, found_at, push_bytes};

verus! {

/// The largest request head that is read.
pub const MAX_HEAD: usize = 8192;

/// The answer to a request without the right password.
pub const AUTH_REQUIRED: &'static str = "HTTP/1.1 407 Proxy Authentication Required\r\nProxy-Authenticate: Basic realm=\"mirage\"\r\nContent-Length: 0\r\nConnection: close\r\n\r\n";

/// The answer to a request for a connection.
pub const ESTABLISHED: &'static str = "HTTP/1.1 200 Connection Established\r\n\r\n";

/// The value of a base64 digit.
pub open spec fn sextet(c: u8) -> Option<u8> {
    if 65 <= c <= 90 {
        Some((c - 65) as u8)
    } else if 97 <= c <= 122 {
        Some((c - 71) as u8)
    } else if 48 <= c <= 57 {
        Some((c + 4) as u8)
    } else if c == 43 {
        Some(62)
    } else if c == 47 {
        Some(63)
    } else {
        None
    }
}

fn digit_of(c: u8) -> (r: Option<u8>)
    ensures
        r == sextet(c),
        r matches Some(v) ==> v < 64,
{
    if 65 <= c && c <= 90 {
        Some(c - 65)
    } else if 97 <= c && c <= 122 {
        Some(c - 71)
    } else if 48 <= c && c <= 57 {
        Some(c + 4)
    } else if c == 43 {
        Some(62)
    } else if c == 47 {
        Some(63)
    } else {
        None
    }
}

/// White space and padding do not count.
pub open spec fn counts(c: u8) -> bool {
    !(c == 32 || c == 9 || c == 10 || c == 12 || c == 13 || c == 61)
}

/// The bytes of a group of two to four digits.
pub open spec fn group_bytes(g: Seq<u8>) -> Option<Seq<u8>> {
    if g.len() < 2 || sextet(g[0]) is None || sextet(g[1]) is None || (g.len() > 2 && sextet(g[2]) is None) || (g.len()
        > 3 && sextet(g[3]) is None) {
        None
    } else {
        let a = sextet(g[0])->0;
        let b = sextet(g[1])->0;
        let first = seq![(a * 4 + b / 16) as u8];
        if g.len() == 2 {
            Some(first)
        } else {
            let c = sextet(g[2])->0;
            let two = first.push(((b % 16) * 16 + c / 4) as u8);
            if g.len() == 3 {
                Some(two)
            } else {
                Some(two.push(((c % 4) * 64 + sextet(g[3])->0) as u8))
            }
        }
    }
}

/// The bytes of base64 digits, in groups of four and a shorter last one.
pub open spec fn groups_bytes(d: Seq<u8>) -> Option<Seq<u8>>
    decreases d.len(),
{
    if d.len() == 0 {
        Some(seq![])
    } else if d.len() <= 4 {
        group_bytes(d)
    } else {
        match (group_bytes(d.take(4)), groups_bytes(d.skip(4))) {
            (Some(a), Some(b)) => Some(a + b),
            _ => None,
        }
    }
}

/// The bytes of a base64 text, read leniently: white space and padding are skipped wherever they
/// stand, and the unused bits of the last digit do not matter.
pub open spec fn lenient_base64(s: Seq<u8>) -> Option<Seq<u8>> {
    groups_bytes(s.filter(|c: u8| counts(c)))
}

/// Decodes base64 leniently.
pub fn b64_decode(s: &str) -> (r: Option<Vec<u8>>)
    ensures
        match r {
            Some(v) => lenient_base64(encode_utf8(s@)) == Some(v@),
            None => lenient_base64(encode_utf8(s@)) is None,
        },
{
    let b: &[u8] = s.as_bytes();
    let mut d: Vec<u8> = Vec::new();
    let mut i: usize = 0;
    let ghost f = |c: u8| counts(c);
    proof {
        reveal(Seq::filter);
        assert(b@.take(0).filter(f) =~= seq![]);
    }
    while i < b.len()
        invariant
            i <= b@.len(),
            f == |c: u8| counts(c),
            d@ == b@.take(i as int).filter(f),
        decreases b@.len() - i,
    {
        let c: u8 = b[i];
        proof {
            reveal(Seq::filter);
            assert(b@.take(i + 1).drop_last() =~= b@.take(i as int));
            assert(b@.take(i + 1).last() == c);
        }
        if !(c == 32 || c == 9 || c == 10 || c == 12 || c == 13 || c == 61) {
            d.push(c);
        }
        i = i + 1;
    }
    assert(b@.take(i as int) =~= b@);
    let mut out: Vec<u8> = Vec::new();
    let mut k: usize = 0;
    let ghost all = groups_bytes(d@);
    assert(d@.skip(0) =~= d@);
    assert(all is Some ==> all->0 =~= seq![] + all->0);
    while k < d.len()
        invariant
            k <= d@.len(),
            d@ == b@.filter(f),
            b@ == encode_utf8(s@),
            f == |c: u8| counts(c),
            all == groups_bytes(d@),
            match groups_bytes(d@.skip(k as int)) {
                Some(rest) => all == Some(out@ + rest),
                None => all is None,
            },
        decreases d@.len() - k,
    {
        let n: usize = if d.len() - k < 4 {
            d.len() - k
        } else {
            4
        };
        let ghost rest = d@.skip(k as int);
        let ghost g = rest.take(n as int);
        proof {
            assert(rest.skip(n as int) =~= d@.skip(k + n));
            if rest.len() <= 4 {
                assert(g =~= rest);
                assert(d@.skip(k + n) =~= seq![]);
            }
            assert(g[0] == d@[k as int]);
            if n >= 2 {
                assert(g[1] == d@[k + 1]);
            }
            if n >= 3 {
                assert(g[2] == d@[k + 2]);
            }
            if n >= 4 {
                assert(g[3] == d@[k + 3]);
            }
        }
        let ghost before = out@;
        if n < 2 {
            return None;
        }
        let a: u8 = match digit_of(d[k]) {
            Some(v) => v,
            None => {
                return None;
            },
        };
        let c: u8 = match digit_of(d[k + 1]) {
            Some(v) => v,
            None => {
                return None;
            },
        };
        let mut e: u8 = 0;
        let mut h: u8 = 0;
        if n >= 3 {
            e = match digit_of(d[k + 2]) {
                Some(v) => v,
                None => {
                    return None;
                },
            };
        }
        if n == 4 {
            h = match digit_of(d[k + 3]) {
                Some(v) => v,
                None => {
                    return None;
                },
            };
        }
        out.push(a * 4 + c / 16);
        if n >= 3 {
            out.push((c % 16) * 16 + e / 4);
        }
        if n == 4 {
            out.push((e % 4) * 64 + h);
        }
        proof {
            assert(group_bytes(g) is Some);
            assert(out@ =~= before + group_bytes(g)->0);
            match groups_bytes(d@.skip(k + n)) {
                Some(t) => {
                    assert(out@ + t =~= before + (group_bytes(g)->0 + t));
                },
                None => {},
            }
        }
        k = k + n;
    }
    assert(d@.skip(k as int) =~= seq![]);
    assert(out@ + seq![] =~= out@);
    Some(out)
}

/// A line of a request gives the user name and the password.
pub open spec fn line_grants(line: Seq<char>, secret: (Seq<u8>, Seq<u8>)) -> bool {
    match cut(line, ':') {
        None => false,
        Some(nv) => same_ignore_case(trimmed(nv.0), "proxy-authorization"@) && ({
            let value = trimmed(nv.1);
            (has_prefix(value, "Basic "@) || has_prefix(value, "basic "@)) && match lenient_base64(
                encode_utf8(trimmed(value.skip(6))),
            ) {
                None => false,
                Some(raw) => {
                    let i = until(raw, 58);
                    i < raw.len() && (raw.take(i), raw.skip(i + 1)) == secret
                },
            }
        }),
    }
}

/// Some line of a request gives the user name and the password.
pub open spec fn head_grants(head: Seq<char>, secret: (Seq<u8>, Seq<u8>)) -> bool {
    exists|i: int| 0 <= i < lines(head).len() && line_grants(#[trigger] lines(head)[i], secret)
}

fn grants(line: &Vec<char>, cred: &InboundAuth) -> (r: bool)
    ensures
        r == line_grants(line@, secrets(*cred)),
{
    match cut_at(line.as_slice(), ':') {
        None => false,
        Some(nv) => {
            let wanted: Vec<char> = chars_of("proxy-authorization");
            if !eq_ignore_case(trim(nv.0.as_slice()), wanted.as_slice()) {
                return false;
            }
            let value: &[char] = trim(nv.1.as_slice());
            let upper: bool = starts_with(value, "Basic ");
            let lower: bool = starts_with(value, "basic ");
            if !upper && !lower {
                return false;
            }
            proof {
                reveal_strlit("Basic ");
                reveal_strlit("basic ");
            }
            let tail: Vec<char> = copy_chars(value, 6, value.len());
            assert(tail@ =~= value@.skip(6));
            let text: String = string_of(trim(tail.as_slice()));
            match b64_decode(text.as_str()) {
                None => false,
                Some(raw) => {
                    let mut i: usize = 0;
                    while i < raw.len() && raw[i] != 58
                        invariant
                            i <= raw@.len(),
                            forall|j: int| 0 <= j < i ==> raw@[j] != 58,
                        decreases raw@.len() - i,
                    {
                        i = i + 1;
                    }
                    proof {
                        lemma_until_is(raw@, 58, i as int);
                    }
                    if i == raw.len() {
                        return false;
                    }
                    let user: Vec<u8> = copy_range(raw.as_slice(), 0, i);
                    let pass: Vec<u8> = copy_range(raw.as_slice(), i + 1, raw.len());
                    assert(user@ =~= raw@.take(i as int));
                    assert(pass@ =~= raw@.skip(i + 1));
                    cred.verify(user.as_slice(), pass.as_slice())
                },
            }
        },
    }
}

/// Whether the head of a request gives the right user name and password.
pub fn http_auth_ok(header_str: &str, cred: &InboundAuth) -> (r: bool)
    ensures
        r == head_grants(header_str@, secrets(*cred)),
{
    let c: Vec<char> = chars_of(header_str);
    let ls: Vec<Vec<char>> = split_lines(c.as_slice());
    let mut i: usize = 0;
    while i < ls.len()
        invariant
            i <= ls@.len(),
            ls@.len() == lines(header_str@).len(),
            forall|k: int| 0 <= k < ls@.len() ==> (#[trigger] ls@[k])@ == lines(header_str@)[k],
            forall|k: int| 0 <= k < i ==> !line_grants(#[trigger] lines(header_str@)[k], secrets(*cred)),
        decreases ls@.len() - i,
    {
        assert(ls@[i as int]@ == lines(header_str@)[i as int]);
        if grants(&ls[i], cred) {
            assert(line_grants(lines(header_str@)[i as int], secrets(*cred)));
            return true;
        }
        i = i + 1;
    }
    false
}

/// The first place from `i` on where `p` stands in `b`; -1 where there is none.
pub open spec fn first_place(b: Seq<u8>, p: Seq<u8>, i: int) -> int
    decreases b.len() - i,
{
    if i < 0 || i + p.len() > b.len() {
        -1
    } else if found_at(b, p, i) {
        i
    } else if i >= b.len() {
        -1
    } else {
        first_place(b, p, i + 1)
    }
}

proof fn lemma_first_place(b: Seq<u8>, p: Seq<u8>, i: int, k: int)
    requires
        0 <= i <= k,
        found_at(b, p, k),
        forall|j: int| i <= j < k ==> !found_at(b, p, j),
    ensures
        first_place(b, p, i) == k,
    decreases k - i,
{
    if i < k {
        lemma_first_place(b, p, i + 1, k);
    }
}

proof fn lemma_no_place(b: Seq<u8>, p: Seq<u8>, i: int)
    requires
        0 <= i,
        forall|j: int| !found_at(b, p, j),
    ensures
        first_place(b, p, i) == -1,
    decreases b.len() - i,
{
    if i + p.len() <= b.len() && i < b.len() {
        lemma_no_place(b, p, i + 1);
    }
}

fn find_first(b: &[u8], p: &[u8]) -> (r: Option<usize>)
    ensures
        match r {
            Some(i) => i == first_place(b@, p@, 0) && i + p@.len() <= b@.len() <= usize::MAX,
            None => first_place(b@, p@, 0) == -1,
        },
{
    let n: usize = b.len();
    match find_bytes(b, p) {
        Some(i) => {
            assert(b@.len() == n);
            proof {
                lemma_first_place(b@, p@, 0, i as int);
            }
            Some(i)
        },
        None => {
            proof {
                lemma_no_place(b@, p@, 0);
            }
            None
        },
    }
}

/// The end of a head.
pub open spec fn blank_line() -> Seq<u8> {
    seq![13u8, 10, 13, 10]
}

/// The end of a line.
pub open spec fn line_end() -> Seq<u8> {
    seq![13u8, 10]
}

/// The length of the head at the front of `b`, blank line and all; `None` while it is incomplete.
pub open spec fn head_len(b: Seq<u8>) -> Option<int> {
    let i = first_place(b, blank_line(), 0);
    if i < 0 {
        None
    } else {
        Some(i + 4)
    }
}

/// What is done after bytes of a head were read.
#[derive(Clone, Copy, PartialEq, Eq, Structural, Debug)]
pub enum HeadStep {
    More,
    Complete(usize),
    Close,
}

/// Adds the bytes that were read to a head. Nothing read is the end of the connection, and so is a
/// head that grows too large.
pub fn read_head(buf: &mut Vec<u8>, chunk: &[u8]) -> (r: HeadStep)
    ensures
        final(buf)@ == old(buf)@ + chunk@,
        match r {
            HeadStep::Complete(n) => chunk@.len() > 0 && head_len(final(buf)@) == Some(n as int) && n <= final(buf)@.len(),
            HeadStep::Close => chunk@.len() == 0 || (head_len(final(buf)@) is None && final(buf)@.len() > MAX_HEAD),
            HeadStep::More => chunk@.len() > 0 && head_len(final(buf)@) is None && final(buf)@.len() <= MAX_HEAD,
        },
{
    push_bytes(buf, chunk);
    if chunk.len() == 0 {
        return HeadStep::Close;
    }
    let p: [u8; 4] = [13u8, 10, 13, 10];
    assert(p@ =~= blank_line());
    match find_first(buf.as_slice(), p.as_slice()) {
        Some(i) => HeadStep::Complete(i + 4),
        None => {
            if buf.len() > MAX_HEAD {
                HeadStep::Close
            } else {
                HeadStep::More
            }
        },
    }
}

/// What a request comes to.
#[verifier::ext_equal]
pub enum PlanView {
    /// The password is missing or wrong.
    AuthRequired,
    /// The request makes no sense.
    Close,
    /// The target, what is sent there first, and whether the client waits for an answer.
    Go(Seq<char>, Seq<u8>, bool),
}

/// What a request comes to.
pub enum HttpPlan {
    AuthRequired,
    Close,
    Go(String, Vec<u8>, bool),
}

impl View for HttpPlan {
    type V = PlanView;

    open spec fn view(&self) -> PlanView {
        match *self {
            HttpPlan::AuthRequired => PlanView::AuthRequired,
            HttpPlan::Close => PlanView::Close,
            HttpPlan::Go(t, p, c) => PlanView::Go(t@, p@, c),
        }
    }
}

/// A host with a port: its own, or the one for HTTP.
pub open spec fn with_port(host: Seq<char>) -> Seq<char> {
    if host.contains(':') {
        host
    } else {
        host + ":80"@
    }
}

/// The host of the first host line from line `i` on, before the first blank line.
pub open spec fn host_line(ls: Seq<Seq<char>>, i: int) -> Option<Seq<char>>
    decreases ls.len() - i,
{
    if i < 0 || i >= ls.len() || trimmed(ls[i]).len() == 0 {
        None
    } else {
        match cut(ls[i], ':') {
            Some(kv) => if same_ignore_case(kv.0, "host"@) {
                Some(trimmed(kv.1))
            } else {
                host_line(ls, i + 1)
            },
            None => host_line(ls, i + 1),
        }
    }
}

/// What an absolute address comes to: the target, and the path that is asked for there.
pub open spec fn absolute(rest: Seq<char>) -> (Seq<char>, Seq<char>) {
    let e = until(rest, '/');
    let host = rest.take(e);
    let at = last_index(host, '@');
    (
        with_port(host.skip(at + 1)),
        if e == rest.len() {
            "/"@
        } else {
            rest.skip(e)
        },
    )
}

/// What a request comes to. `head` is the text of its first `n` bytes.
pub open spec fn request_plan(buf: Seq<u8>, n: int, head: Seq<char>, auth: Option<(Seq<u8>, Seq<u8>)>) -> PlanView {
    let ls = lines(head);
    if auth is Some && !head_grants(head, auth->0) {
        PlanView::AuthRequired
    } else if ls.len() == 0 || words(ls[0]).len() < 3 {
        PlanView::Close
    } else {
        let w = words(ls[0]);
        if w[0] == "CONNECT"@ {
            PlanView::Go(w[1], buf.skip(n), true)
        } else if has_prefix(w[1], "http://"@) {
            let t = absolute(w[1].skip(7));
            let fl = first_place(buf, line_end(), 0);
            let first = encode_utf8(w[0] + seq![' '] + t.1 + seq![' '] + w[2]);
            PlanView::Go(
                t.0,
                first + line_end() + buf.skip(
                    if fl < 0 {
                        n
                    } else {
                        fl + 2
                    },
                ),
                false,
            )
        } else {
            match host_line(ls, 1) {
                None => PlanView::Close,
                Some(h) => PlanView::Go(with_port(h), buf, false),
            }
        }
    }
}

fn add_port(host: &[char]) -> (r: String)
    ensures
        r@ == with_port(host@),
{
    let i: usize = find_char(host, ':');
    proof {
        lemma_until_bounds(host@, ':');
    }
    if i < host.len() {
        assert(host@[i as int] == ':');
        return string_of(host);
    }
    assert(!host@.contains(':'));
    let mut out: Vec<char> = Vec::new();
    push_chars(&mut out, host);
    push_text(&mut out, ":80");
    assert(out@ =~= host@ + ":80"@);
    string_of(out.as_slice())
}

fn find_host(ls: &Vec<Vec<char>>) -> (r: Option<Vec<char>>)
    ensures
        match r {
            Some(h) => host_line(Seq::new(ls@.len(), |k: int| ls@[k]@), 1) == Some(h@),
            None => host_line(Seq::new(ls@.len(), |k: int| ls@[k]@), 1) is None,
        },
{
    let ghost v = Seq::new(ls@.len(), |k: int| ls@[k]@);
    let wanted: Vec<char> = chars_of("host");
    let mut i: usize = 1;
    while i < ls.len()
        invariant
            v == Seq::new(ls@.len(), |k: int| ls@[k]@),
            wanted@ == "host"@,
            1 <= i,
            host_line(v, 1) == host_line(v, i as int),
        decreases ls@.len() - i,
    {
        if trim(ls[i].as_slice()).len() == 0 {
            return None;
        }
        match cut_at(ls[i].as_slice(), ':') {
            Some(kv) => {
                if eq_ignore_case(kv.0.as_slice(), wanted.as_slice()) {
                    let t: &[char] = trim(kv.1.as_slice());
                    return Some(copy_chars(t, 0, t.len()));
                }
            },
            None => {},
        }
        i = i + 1;
    }
    None
}

/// Works out a request from its bytes, the length of its head and the text of its head.
pub fn plan_head(buf: &Vec<u8>, n: usize, head: &str, auth: &Option<InboundAuth>) -> (r: HttpPlan)
    requires
        n <= buf@.len(),
    ensures
        r@ == request_plan(buf@, n as int, head@, opt_secrets(*auth)),
{
    match auth {
        Some(cred) => {
            if !http_auth_ok(head, cred) {
                return HttpPlan::AuthRequired;
            }
        },
        None => {},
    }
    let c: Vec<char> = chars_of(head);
    let ls: Vec<Vec<char>> = split_lines(c.as_slice());
    if ls.len() == 0 {
        return HttpPlan::Close;
    }
    assert(ls@[0]@ == lines(head@)[0]);
    let w: Vec<Vec<char>> = split_words(ls[0].as_slice());
    if w.len() < 3 {
        return HttpPlan::Close;
    }
    let ghost ws = words(lines(head@)[0]);
    assert(w@[0]@ == ws[0] && w@[1]@ == ws[1] && w@[2]@ == ws[2]);
    let connect: Vec<char> = chars_of("CONNECT");
    if same_chars(w[0].as_slice(), connect.as_slice()) {
        let extra: Vec<u8> = copy_range(buf.as_slice(), n, buf.len());
        assert(extra@ =~= buf@.skip(n as int));
        return HttpPlan::Go(string_of(w[1].as_slice()), extra, true);
    }
    if starts_with(w[1].as_slice(), "http://") {
        proof {
            reveal_strlit("http://");
        }
        let rest: Vec<char> = copy_chars(w[1].as_slice(), 7, w[1].len());
        assert(rest@ =~= ws[1].skip(7));
        let e: usize = find_char(rest.as_slice(), '/');
        let host: Vec<char> = copy_chars(rest.as_slice(), 0, e);
        assert(host@ =~= rest@.take(e as int));
        proof {
            lemma_last_index_bounds(host@, '@');
        }
        let from: usize = match rfind_char(host.as_slice(), '@') {
            Some(i) => i + 1,
            None => 0,
        };
        let actual: Vec<char> = copy_chars(host.as_slice(), from, host.len());
        assert(actual@ =~= host@.skip(last_index(host@, '@') + 1));
        let target: String = add_port(actual.as_slice());
        let path: Vec<char> = if e == rest.len() {
            chars_of("/")
        } else {
            copy_chars(rest.as_slice(), e, rest.len())
        };
        assert(path@ =~= absolute(rest@).1);
        let mut first: Vec<char> = Vec::new();
        push_chars(&mut first, w[0].as_slice());
        first.push(' ');
        push_chars(&mut first, path.as_slice());
        first.push(' ');
        push_chars(&mut first, w[2].as_slice());
        assert(first@ =~= ws[0] + seq![' '] + path@ + seq![' '] + ws[2]);
        let line: String = string_of(first.as_slice());
        let mut out: Vec<u8> = Vec::new();
        push_bytes(&mut out, line.as_str().as_bytes());
        out.push(13);
        out.push(10);
        let p: [u8; 2] = [13u8, 10];
        assert(p@ =~= line_end());
        let keep: usize = match find_first(buf.as_slice(), p.as_slice()) {
            Some(i) => i + 2,
            None => n,
        };
        let tail: Vec<u8> = copy_range(buf.as_slice(), keep, buf.len());
        assert(tail@ =~= buf@.skip(keep as int));
        push_bytes(&mut out, tail.as_slice());
        assert(out@ =~= encode_utf8(first@) + line_end() + buf@.skip(keep as int));
        return HttpPlan::Go(target, out, false);
    }
    assert(Seq::new(ls@.len(), |k: int| ls@[k]@) =~= lines(head@));
    match find_host(&ls) {
        None => HttpPlan::Close,
        Some(h) => {
            let all: Vec<u8> = copy_range(buf.as_slice(), 0, buf.len());
            assert(all@ =~= buf@);
            HttpPlan::Go(add_port(h.as_slice()), all, false)
        },
    }
}

/// Works out a request whose head has `n` bytes.
pub fn plan_request(buf: &Vec<u8>, n: usize, auth: &Option<InboundAuth>) -> (r: HttpPlan)
    requires
        n <= buf@.len(),
    ensures
        r@ == request_plan(buf@, n as int, lossy_text(buf@.take(n as int)), opt_secrets(*auth)),
{
    let head: Vec<u8> = copy_range(buf.as_slice(), 0, n);
    assert(head@ =~= buf@.take(n as int));
    let text: String = utf8_lossy(head.as_slice());
    plan_head(buf, n, text.as_str(), auth)
}

/// Which protocol a client speaks, by its first byte.
#[derive(Clone, Copy, PartialEq, Eq, Structural, Debug)]
pub enum Protocol {
    Socks,
    Http,
    Gone,
}

/// Tells the protocol of a client by its first byte, where it sent one.
pub fn detect(first: Option<u8>) -> (r: Protocol)
    ensures
        r == match first {
            None => Protocol::Gone,
            Some(b) => if b == 5 {
                Protocol::Socks
            } else {
                Protocol::Http
            },
        },
{
    match first {
        None => Protocol::Gone,
        Some(b) => {
            if b == 5 {
                Protocol::Socks
            } else {
                Protocol::Http
            }
        },
    }
}

/// Where a password is required, a request without it never reaches a target.
pub proof fn law_http_password_required(buf: Seq<u8>, n: int, head: Seq<char>, secret: (Seq<u8>, Seq<u8>))
    requires
        request_plan(buf, n, head, Some(secret)) is Go,
    ensures
        head_grants(head, secret),
{
}

proof fn lemma_first_place_found(b: Seq<u8>, p: Seq<u8>, i: int)
    requires
        0 <= i,
        p.len() > 0,
    ensures
        ({
            let k = first_place(b, p, i);
            ||| i <= k && found_at(b, p, k) && forall|j: int| i <= j < k ==> !found_at(b, p, j)
            ||| k == -1 && forall|j: int| i <= j ==> !found_at(b, p, j)
        }),
    decreases b.len() - i,
{
    if i + p.len() <= b.len() && !found_at(b, p, i) {
        lemma_first_place_found(b, p, i + 1);
    }
}

/// The head of a request is complete with the first carriage return, line feed, carriage return and
/// line feed in a row, and ends behind them; until then it is incomplete.
pub proof fn law_head_end(b: Seq<u8>, i: int)
    requires
        0 <= i,
        forall|j: int|
            0 <= j < i && j + 3 < b.len() ==> !((#[trigger] b[j]) == 13 && b[j + 1] == 10 && b[j + 2] == 13 && b[j + 3]
                == 10),
    ensures
        i + 3 < b.len() && b[i] == 13 && b[i + 1] == 10 && b[i + 2] == 13 && b[i + 3] == 10 ==> head_len(b) == Some(i + 4),
        i >= b.len() ==> head_len(b) is None,
{
    let p = blank_line();
    lemma_first_place_found(b, p, 0);
    assert forall|j: int| 0 <= j < i implies !found_at(b, p, j) by {
        if found_at(b, p, j) {
            let s = b.subrange(j, j + 4);
            assert(s[0] == b[j] && s[1] == b[j + 1] && s[2] == b[j + 2] && s[3] == b[j + 3]);
        }
    }
    if i + 3 < b.len() && b[i] == 13 && b[i + 1] == 10 && b[i + 2] == 13 && b[i + 3] == 10 {
        assert(b.subrange(i, i + 4) =~= p);
        lemma_first_place(b, p, 0, i);
    }
}

/// A word: characters, none of them white space.
pub open spec fn is_word(s: Seq<char>) -> bool {
    s.len() > 0 && forall|i: int| 0 <= i < s.len() ==> !is_white(#[trigger] s[i])
}

proof fn lemma_three_words(a: Seq<char>, b: Seq<char>, c: Seq<char>)
    requires
        is_word(a),
        is_word(b),
        is_word(c),
    ensures
        words(a + seq![' '] + b + seq![' '] + c) == seq![a, b, c],
        !(a + seq![' '] + b + seq![' '] + c).contains('\n'),
{
    let s = a + seq![' '] + b + seq![' '] + c;
    assert(s =~= a + seq![' '] + (b + seq![' '] + c));
    law_first_word(a, ' ', b + seq![' '] + c);
    law_first_word(b, ' ', c);
    law_first_word(c, ' ', seq![]);
    assert(seq![a] + (seq![b] + seq![c]) =~= seq![a, b, c]);
    assert forall|i: int| 0 <= i < s.len() implies s[i] != '\n' by {
        if i < a.len() {
            assert(s[i] == a[i]);
        } else if a.len() < i <= a.len() + b.len() {
            assert(s[i] == b[i - a.len() - 1]);
        } else if i > a.len() + 1 + b.len() {
            assert(s[i] == c[i - a.len() - b.len() - 2]);
        }
    }
}

/// A request for an address with a scheme, such as a client sends to a proxy, goes to the host that
/// it names, at its own port or at port 80. What is sent there is the request with the path alone,
/// or a slash for none, in its first line, and everything that stood behind that line, whether it
/// belongs to the head or not. A name and a password before the host are left out.
pub proof fn law_absolute_request(
    method: Seq<char>,
    cred: Seq<char>,
    host: Seq<char>,
    path: Seq<char>,
    version: Seq<char>,
    fields: Seq<char>,
    line: Seq<u8>,
    rest: Seq<u8>,
    n: int,
    auth: Option<(Seq<u8>, Seq<u8>)>,
)
    requires
        is_word(method),
        method != "CONNECT"@,
        is_word(version),
        cred.len() == 0 || (is_word(cred) && !cred.contains('/') && cred.last() == '@'),
        is_word(host) && !host.contains('/') && !host.contains('@'),
        path.len() == 0 || (is_word(path) && path[0] == '/'),
        !line.contains(13),
        auth is None || head_grants(
            method + seq![' '] + ("http://"@ + cred + host + path) + seq![' '] + version + seq!['\r', '\n'] + fields,
            auth->0,
        ),
    ensures
        request_plan(
            line + seq![13u8, 10] + rest,
            n,
            method + seq![' '] + ("http://"@ + cred + host + path) + seq![' '] + version + seq!['\r', '\n'] + fields,
            auth,
        ) == PlanView::Go(
            if host.contains(':') {
                host
            } else {
                host + ":80"@
            },
            encode_utf8(
                method + seq![' '] + (if path.len() == 0 {
                    seq!['/']
                } else {
                    path
                }) + seq![' '] + version,
            ) + seq![13u8, 10] + rest,
            false,
        ),
{
    reveal_strlit("http://");
    reveal_strlit("/");
    let url = "http://"@ + cred + host + path;
    let first = method + seq![' '] + url + seq![' '] + version;
    let buf = line + seq![13u8, 10] + rest;
    assert forall|i: int| 0 <= i < url.len() implies !is_white(#[trigger] url[i]) by {
        if i < 7 {
            assert(url[i] == "http://"@[i]);
        } else if i < 7 + cred.len() {
            assert(url[i] == cred[i - 7]);
        } else if i < 7 + cred.len() + host.len() {
            assert(url[i] == host[i - 7 - cred.len()]);
        } else {
            assert(url[i] == path[i - 7 - cred.len() - host.len()]);
        }
    }
    lemma_three_words(method, url, version);
    law_first_line(first, fields);
    assert(lines(first + seq!['\r', '\n'] + fields)[0] == first);
    assert(url.take(7) =~= "http://"@);
    let r = url.skip(7);
    assert(r =~= cred + host + path);
    let e = (cred.len() + host.len()) as int;
    assert forall|j: int| 0 <= j < e implies r[j] != '/' by {
        if j < cred.len() {
            assert(r[j] == cred[j]);
            assert(cred.contains(cred[j]));
        } else {
            assert(r[j] == host[j - cred.len()]);
            assert(host.contains(host[j - cred.len()]));
        }
    }
    lemma_until_is(r, '/', e);
    let t = r.take(e);
    assert(t =~= cred + host);
    assert forall|j: int| cred.len() - 1 < j < t.len() implies t[j] != '@' by {
        assert(t[j] == host[j - cred.len()]);
        assert(host.contains(host[j - cred.len()]));
    }
    lemma_last_index_is(t, '@', cred.len() - 1);
    assert(t.skip(cred.len() as int) =~= host);
    assert(r.skip(e) =~= path);
    assert("/"@ =~= seq!['/']);
    let p = line_end();
    let k = line.len() as int;
    assert(buf.subrange(k, k + 2) =~= p);
    assert forall|j: int| 0 <= j < k implies !found_at(buf, p, j) by {
        assert(buf[j] == line[j]);
        assert(line.contains(line[j]));
        if found_at(buf, p, j) {
            assert(buf.subrange(j, j + 2)[0] == buf[j]);
        }
    }
    lemma_first_place(buf, p, 0, k);
    assert(buf.skip(k + 2) =~= rest);
}

/// What a client sends along with the head of a request is passed on behind what the request itself
/// comes to, whatever kind of request it is: the plan for a head with a body is the plan for the head,
/// with the body behind what is sent.
pub proof fn law_body_passed_on(
    buf: Seq<u8>,
    body: Seq<u8>,
    n: int,
    head: Seq<char>,
    auth: Option<(Seq<u8>, Seq<u8>)>,
    i: int,
)
    requires
        0 <= n <= buf.len(),
        0 <= i < buf.len() - 1,
        buf[i] == 13,
        buf[i + 1] == 10,
    ensures
        request_plan(buf + body, n, head, auth) == match request_plan(buf, n, head, auth) {
            PlanView::Go(target, sent, waits) => PlanView::Go(target, sent + body, waits),
            PlanView::Close => PlanView::Close,
            PlanView::AuthRequired => PlanView::AuthRequired,
        },
{
    let p = line_end();
    lemma_first_place_found(buf, p, 0);
    assert(buf.subrange(i, i + 2) =~= p);
    assert(found_at(buf, p, i));
    let k = first_place(buf, p, 0);
    let all = buf + body;
    assert(all.subrange(k, k + 2) =~= buf.subrange(k, k + 2));
    assert forall|j: int| 0 <= j < k implies !found_at(all, p, j) by {
        assert(all.subrange(j, j + 2) =~= buf.subrange(j, j + 2));
        assert(!found_at(buf, p, j));
    }
    lemma_first_place(all, p, 0, k);
    assert(all.skip(n) =~= buf.skip(n) + body);
    assert(all.skip(k + 2) =~= buf.skip(k + 2) + body);
    let w = words(lines(head)[0]);
    let t = absolute(w[1].skip(7));
    let first = encode_utf8(w[0] + seq![' '] + t.1 + seq![' '] + w[2]) + p;
    assert(first + (buf.skip(k + 2) + body) =~= first + buf.skip(k + 2) + body);
}

/// A request for a connection goes to the target that it names. The client waits for an answer, and
/// what came behind the head is sent to the target, but nothing of the head.
pub proof fn law_connect_request(
    target: Seq<char>,
    version: Seq<char>,
    fields: Seq<char>,
    head: Seq<u8>,
    body: Seq<u8>,
    auth: Option<(Seq<u8>, Seq<u8>)>,
)
    requires
        is_word(target),
        is_word(version),
        auth is None || head_grants(
            "CONNECT"@ + seq![' '] + target + seq![' '] + version + seq!['\r', '\n'] + fields,
            auth->0,
        ),
    ensures
        request_plan(
            head + body,
            head.len() as int,
            "CONNECT"@ + seq![' '] + target + seq![' '] + version + seq!['\r', '\n'] + fields,
            auth,
        ) == PlanView::Go(target, body, true),
{
    reveal_strlit("CONNECT");
    let m = "CONNECT"@;
    let first = m + seq![' '] + target + seq![' '] + version;
    lemma_three_words(m, target, version);
    law_first_line(first, fields);
    assert(lines(first + seq!['\r', '\n'] + fields)[0] == first);
    assert((head + body).skip(head.len() as int) =~= body);
}

/// Lines as they stand in the head of a request.
pub open spec fn head_lines(ls: Seq<Seq<char>>) -> Seq<char>
    decreases ls.len(),
{
    if ls.len() == 0 {
        seq![]
    } else {
        ls[0] + seq!['\r', '\n'] + head_lines(ls.drop_first())
    }
}

/// Lines that stand in a head come out of it one by one.
pub proof fn lemma_head_lines(ls: Seq<Seq<char>>, rest: Seq<char>)
    requires
        forall|i: int| 0 <= i < ls.len() ==> !(#[trigger] ls[i]).contains('\n'),
    ensures
        lines(head_lines(ls) + rest) == ls + lines(rest),
    decreases ls.len(),
{
    if ls.len() == 0 {
        assert(head_lines(ls) + rest =~= rest);
        assert(ls + lines(rest) =~= lines(rest));
    } else {
        let t = ls.drop_first();
        assert forall|i: int| 0 <= i < t.len() implies !(#[trigger] t[i]).contains('\n') by {
            assert(t[i] == ls[i + 1]);
        }
        lemma_head_lines(t, rest);
        assert(!ls[0].contains('\n'));
        law_first_line(ls[0], head_lines(t) + rest);
        assert(head_lines(ls) + rest =~= ls[0] + seq!['\r', '\n'] + (head_lines(t) + rest));
        assert(seq![ls[0]] + (t + lines(rest)) =~= ls + lines(rest));
    }
}

/// A line that begins with something else than white space is not blank.
pub proof fn lemma_trim_end_keeps(s: Seq<char>)
    requires
        s.len() > 0,
        !is_white(s[0]),
    ensures
        trim_end(s).len() > 0,
    decreases s.len(),
{
    if is_white(s.last()) {
        lemma_trim_end_keeps(s.drop_last());
    }
}

/// A line of a head that names no host.
pub open spec fn other_field(s: Seq<char>) -> bool {
    &&& s.len() > 0 && !is_white(s[0])
    &&& !s.contains('\n')
    &&& !(s.len() > 4 && s[4] == ':' && same_ignore_case(s.take(4), "host"@))
}

proof fn lemma_host_passed(ls: Seq<Seq<char>>, i: int, k: int)
    requires
        0 <= i <= k <= ls.len(),
        forall|j: int| i <= j < k ==> other_field(#[trigger] ls[j]),
    ensures
        host_line(ls, i) == host_line(ls, k),
    decreases k - i,
{
    if i < k {
        assert(other_field(ls[i]));
        lemma_trim_end_keeps(ls[i]);
        lemma_until_bounds(ls[i], ':');
        reveal_strlit("host");
        lemma_host_passed(ls, i + 1, k);
    }
}

/// A request with a path goes to the host of its first host line, however its name is written, at its
/// own port or at port 80; what is sent there is all that came, unchanged.
pub proof fn law_host_request(
    method: Seq<char>,
    path: Seq<char>,
    version: Seq<char>,
    before: Seq<Seq<char>>,
    name: Seq<char>,
    pad: (Seq<char>, Seq<char>),
    host: Seq<char>,
    rest: Seq<char>,
    buf: Seq<u8>,
    n: int,
)
    requires
        is_word(method),
        method != "CONNECT"@,
        is_word(path),
        path.len() < 7 || path.take(7) != "http://"@,
        is_word(version),
        forall|i: int| 0 <= i < before.len() ==> other_field(#[trigger] before[i]),
        same_ignore_case(name, "host"@),
        is_word(host),
        forall|i: int| 0 <= i < pad.0.len() ==> is_white(#[trigger] pad.0[i]) && pad.0[i] != '\n',
        forall|i: int| 0 <= i < pad.1.len() ==> is_white(#[trigger] pad.1[i]) && pad.1[i] != '\n',
    ensures
        request_plan(
            buf,
            n,
            head_lines(
                seq![method + seq![' '] + path + seq![' '] + version] + before + seq![
                    name + seq![':'] + (pad.0 + host + pad.1),
                ],
            ) + rest,
            None,
        ) == PlanView::Go(
            if host.contains(':') {
                host
            } else {
                host + ":80"@
            },
            buf,
            false,
        ),
{
    reveal_strlit("host");
    reveal_strlit("http://");
    let first = method + seq![' '] + path + seq![' '] + version;
    let value = pad.0 + host + pad.1;
    let hl = name + seq![':'] + value;
    let ls = seq![first] + before + seq![hl];
    let k = (1 + before.len()) as int;
    lemma_three_words(method, path, version);
    assert forall|i: int| 0 <= i < 4 implies name[i] != ':' && !is_white(#[trigger] name[i]) by {
        assert(lower(name[i]) == lower("host"@[i]));
    }
    assert(!name.contains(':'));
    assert forall|i: int| 0 <= i < hl.len() implies hl[i] != '\n' by {
        if i < 4 {
            assert(hl[i] == name[i]);
        } else if i > 4 {
            assert(hl[i] == value[i - 5]);
            let j = i - 5;
            if j < pad.0.len() {
                assert(value[j] == pad.0[j]);
            } else if j < pad.0.len() + host.len() {
                assert(value[j] == host[j - pad.0.len()]);
            } else {
                assert(value[j] == pad.1[j - pad.0.len() - host.len()]);
            }
        }
    }
    assert forall|i: int| 0 <= i < ls.len() implies !(#[trigger] ls[i]).contains('\n') by {
        if 0 < i < k {
            assert(ls[i] == before[i - 1]);
        }
    }
    lemma_head_lines(ls, rest);
    let all = ls + lines(rest);
    assert(all[0] == first);
    assert forall|j: int| 1 <= j < k implies other_field(#[trigger] all[j]) by {
        assert(all[j] == before[j - 1]);
    }
    lemma_host_passed(all, 1, k);
    assert(all[k] == hl);
    assert(hl[0] == name[0]);
    lemma_trim_end_keeps(hl);
    law_cut_at_first(name, ':', value);
    law_white_taken_off(pad.0, host, pad.1);
    assert(!has_prefix(path, "http://"@));
}

/// A request with a path whose head names no host comes to nothing.
pub proof fn law_no_host_request(
    method: Seq<char>,
    path: Seq<char>,
    version: Seq<char>,
    fields: Seq<Seq<char>>,
    rest: Seq<char>,
    buf: Seq<u8>,
    n: int,
)
    requires
        is_word(method),
        method != "CONNECT"@,
        is_word(path),
        path.len() < 7 || path.take(7) != "http://"@,
        is_word(version),
        forall|i: int| 0 <= i < fields.len() ==> other_field(#[trigger] fields[i]),
    ensures
        request_plan(
            buf,
            n,
            head_lines(seq![method + seq![' '] + path + seq![' '] + version] + fields + seq![seq![]]) + rest,
            None,
        ) is Close,
{
    reveal_strlit("http://");
    let first = method + seq![' '] + path + seq![' '] + version;
    let ls = seq![first] + fields + seq![Seq::<char>::empty()];
    let k = (1 + fields.len()) as int;
    lemma_three_words(method, path, version);
    assert forall|i: int| 0 <= i < ls.len() implies !(#[trigger] ls[i]).contains('\n') by {
        if 0 < i < k {
            assert(ls[i] == fields[i - 1]);
        }
    }
    assert(ls =~= seq![first] + fields + seq![seq![]]);
    lemma_head_lines(ls, rest);
    let all = ls + lines(rest);
    assert(all[0] == first);
    assert forall|j: int| 1 <= j < k implies other_field(#[trigger] all[j]) by {
        assert(all[j] == fields[j - 1]);
    }
    lemma_host_passed(all, 1, k);
    assert(all[k] == Seq::<char>::empty());
    assert(!has_prefix(path, "http://"@));
}

/// The base64 digit of a value below sixty-four.
pub open spec fn digit64(v: int) -> u8 {
    if v < 26 {
        (65 + v) as u8
    } else if v < 52 {
        (71 + v) as u8
    } else if v < 62 {
        (v - 4) as u8
    } else if v == 62 {
        43
    } else {
        47
    }
}

/// The four base64 digits of three bytes.
#[verifier::opaque]
pub open spec fn quad64(x: u8, y: u8, w: u8) -> Seq<u8> {
    seq![
        digit64(x as int / 4),
        digit64((x as int % 4) * 16 + y as int / 16),
        digit64((y as int % 16) * 4 + w as int / 64),
        digit64(w as int % 64),
    ]
}

/// Bytes in base64, padded.
pub open spec fn encoded64(b: Seq<u8>) -> Seq<u8>
    decreases b.len(),
{
    if b.len() == 0 {
        seq![]
    } else if b.len() == 1 {
        quad64(b[0], 0, 0).take(2) + seq![61u8, 61]
    } else if b.len() == 2 {
        quad64(b[0], b[1], 0).take(3) + seq![61u8]
    } else {
        quad64(b[0], b[1], b[2]) + encoded64(b.skip(3))
    }
}

proof fn lemma_digit64(v: int)
    requires
        0 <= v < 64,
    ensures
        sextet(digit64(v)) == Some(v as u8),
        counts(digit64(v)),
        33 <= digit64(v) < 127,
{
}

proof fn lemma_quad64(x: u8, y: u8, w: u8)
    ensures
        quad64(x, y, w).len() == 4,
        forall|i: int| 0 <= i < 4 ==> counts(#[trigger] quad64(x, y, w)[i]) && 33 <= quad64(x, y, w)[i] < 127,
        group_bytes(quad64(x, y, w)) == Some(seq![x, y, w]),
        w == 0 ==> group_bytes(quad64(x, y, w).take(3)) == Some(seq![x, y]),
        w == 0 && y == 0 ==> group_bytes(quad64(x, y, w).take(2)) == Some(seq![x]),
{
    reveal(quad64);
    let q = quad64(x, y, w);
    let (a, b, c) = (x as int, y as int, w as int);
    lemma_digit64(a / 4);
    lemma_digit64((a % 4) * 16 + b / 16);
    lemma_digit64((b % 16) * 4 + c / 64);
    lemma_digit64(c % 64);
    assert(group_bytes(q)->0 =~= seq![x, y, w]);
    if w == 0 {
        assert(group_bytes(q.take(3))->0 =~= seq![x, y]);
        if y == 0 {
            assert(group_bytes(q.take(2))->0 =~= seq![x]);
        }
    }
}

proof fn lemma_filter_all(s: Seq<u8>, f: spec_fn(u8) -> bool)
    requires
        forall|i: int| 0 <= i < s.len() ==> f(#[trigger] s[i]),
    ensures
        s.filter(f) == s,
    decreases s.len(),
{
    reveal(Seq::filter);
    if s.len() > 0 {
        lemma_filter_all(s.drop_last(), f);
        assert(s.drop_last().push(s.last()) =~= s);
    }
}

proof fn lemma_filter_none(s: Seq<u8>, f: spec_fn(u8) -> bool)
    requires
        forall|i: int| 0 <= i < s.len() ==> !f(#[trigger] s[i]),
    ensures
        s.filter(f) == Seq::<u8>::empty(),
    decreases s.len(),
{
    reveal(Seq::filter);
    if s.len() > 0 {
        lemma_filter_none(s.drop_last(), f);
    }
}

proof fn lemma_padded(g: Seq<u8>, z: Seq<u8>)
    requires
        forall|i: int| 0 <= i < g.len() ==> counts(#[trigger] g[i]),
        forall|i: int| 0 <= i < z.len() ==> #[trigger] z[i] == 61,
    ensures
        (g + z).filter(|c: u8| counts(c)) == g,
{
    let f = |c: u8| counts(c);
    Seq::filter_distributes_over_add(g, z, f);
    lemma_filter_all(g, f);
    lemma_filter_none(z, f);
    assert(g + Seq::<u8>::empty() =~= g);
}

/// What is encoded in base64 is decoded to what it was.
pub proof fn law_base64_roundtrip(b: Seq<u8>)
    ensures
        lenient_base64(encoded64(b)) == Some(b),
    decreases b.len(),
{
    let f = |c: u8| counts(c);
    if b.len() == 0 {
        lemma_filter_all(encoded64(b), f);
        assert(b =~= seq![]);
    } else if b.len() == 1 {
        lemma_quad64(b[0], 0, 0);
        lemma_padded(quad64(b[0], 0, 0).take(2), seq![61u8, 61]);
        assert(seq![b[0]] =~= b);
    } else if b.len() == 2 {
        lemma_quad64(b[0], b[1], 0);
        lemma_padded(quad64(b[0], b[1], 0).take(3), seq![61u8]);
        assert(seq![b[0], b[1]] =~= b);
    } else {
        let g = quad64(b[0], b[1], b[2]);
        let t = b.skip(3);
        lemma_quad64(b[0], b[1], b[2]);
        law_base64_roundtrip(t);
        Seq::filter_distributes_over_add(g, encoded64(t), f);
        lemma_filter_all(g, f);
        lemma_groups_joined(g, encoded64(t).filter(f), seq![b[0], b[1], b[2]], t);
        assert(seq![b[0], b[1], b[2]] + t =~= b);
    }
}

proof fn lemma_groups_joined(g: Seq<u8>, d: Seq<u8>, a: Seq<u8>, t: Seq<u8>)
    requires
        g.len() == 4,
        group_bytes(g) == Some(a),
        groups_bytes(d) == Some(t),
    ensures
        groups_bytes(g + d) == Some(a + t),
{
    if d.len() == 0 {
        assert(g + d =~= g);
        assert(t =~= seq![]);
        assert(a + t =~= a);
    } else {
        assert((g + d).take(4) =~= g);
        assert((g + d).skip(4) =~= d);
    }
}

/// White space and padding anywhere in a base64 text make no difference.
pub proof fn law_base64_white_skipped(a: Seq<u8>, c: u8, b: Seq<u8>)
    requires
        c == 32 || c == 9 || c == 10 || c == 12 || c == 13 || c == 61,
    ensures
        lenient_base64(a + seq![c] + b) == lenient_base64(a + b),
{
    let f = |c: u8| counts(c);
    Seq::filter_distributes_over_add(a + seq![c], b, f);
    Seq::filter_distributes_over_add(a, seq![c], f);
    Seq::filter_distributes_over_add(a, b, f);
    lemma_filter_none(seq![c], f);
    assert(a.filter(f) + Seq::<u8>::empty() =~= a.filter(f));
}

/// ASCII bytes as text.
pub open spec fn ascii_text(b: Seq<u8>) -> Seq<char> {
    Seq::new(b.len(), |i: int| b[i] as char)
}

proof fn lemma_encoded_ascii(b: Seq<u8>)
    ensures
        forall|i: int| 0 <= i < encoded64(b).len() ==> 33 <= #[trigger] encoded64(b)[i] < 127,
        b.len() > 0 ==> encoded64(b).len() > 0,
    decreases b.len(),
{
    let e = encoded64(b);
    if b.len() == 1 {
        lemma_quad64(b[0], 0, 0);
        assert forall|i: int| 0 <= i < e.len() implies 33 <= #[trigger] e[i] < 127 by {
            if i < 2 {
                assert(e[i] == quad64(b[0], 0, 0)[i]);
            }
        }
    } else if b.len() == 2 {
        lemma_quad64(b[0], b[1], 0);
        assert forall|i: int| 0 <= i < e.len() implies 33 <= #[trigger] e[i] < 127 by {
            if i < 3 {
                assert(e[i] == quad64(b[0], b[1], 0)[i]);
            }
        }
    } else if b.len() >= 3 {
        lemma_quad64(b[0], b[1], b[2]);
        lemma_encoded_ascii(b.skip(3));
        assert forall|i: int| 0 <= i < e.len() implies 33 <= #[trigger] e[i] < 127 by {
            if i < 4 {
                assert(e[i] == quad64(b[0], b[1], b[2])[i]);
            } else {
                assert(e[i] == encoded64(b.skip(3))[i - 4]);
            }
        }
    }
}

/// The line with a name and a password, as clients write it, grants what that name and that password
/// grant and nothing else. A name cannot hold a colon.
pub proof fn law_password_line(name: Seq<char>, user: Seq<u8>, pass: Seq<u8>, secret: (Seq<u8>, Seq<u8>))
    requires
        same_ignore_case(name, "proxy-authorization"@),
        !user.contains(58),
    ensures
        line_grants(
            name + seq![':'] + (seq![' '] + ("Basic "@ + ascii_text(encoded64(user + seq![58u8] + pass)))),
            secret,
        ) <==> secret == (user, pass),
{
    reveal_strlit("proxy-authorization");
    reveal_strlit("Basic ");
    let raw = user + seq![58u8] + pass;
    let e = encoded64(raw);
    let text = ascii_text(e);
    let t = "Basic "@ + text;
    let value = seq![' '] + t;
    lemma_encoded_ascii(raw);
    assert forall|i: int| 0 <= i < name.len() implies name[i] != ':' && !is_white(#[trigger] name[i]) by {
        assert(lower(name[i]) == lower("proxy-authorization"@[i]));
    }
    assert(!name.contains(':'));
    law_cut_at_first(name, ':', value);
    law_trimmed_kept(name);
    assert(text.last() == e[e.len() - 1] as char);
    assert(33 <= e[e.len() - 1]);
    assert(t.last() == text.last());
    assert(t[0] == 'B');
    law_white_taken_off(seq![' '], t, seq![]);
    assert(seq![' '] + t + seq![] =~= value);
    assert(t.take(6) =~= "Basic "@);
    assert(t.skip(6) =~= text);
    assert(33 <= e[0]);
    law_trimmed_kept(text);
    assert(vstd::utf8::is_ascii_chars(text)) by {
        assert forall|i: int| 0 <= i < text.len() implies 0 <= (#[trigger] text[i]) as u32 <= 127 by {
            assert(33 <= e[i] < 127);
        }
    }
    vstd::utf8::is_ascii_chars_encode_utf8(text);
    assert(encode_utf8(text) =~= e) by {
        assert forall|i: int| 0 <= i < e.len() implies encode_utf8(text)[i] == e[i] by {
            assert(33 <= e[i] < 127);
            assert(text[i] as u8 == e[i]);
        }
    }
    law_base64_roundtrip(raw);
    let k = user.len() as int;
    assert forall|j: int| 0 <= j < k implies raw[j] != 58 by {
        assert(raw[j] == user[j]);
        assert(user.contains(user[j]));
    }
    lemma_until_is(raw, 58, k);
    assert(raw.take(k) =~= user);
    assert(raw.skip(k + 1) =~= pass);
}

/// Where a password is required, a head that holds a line with the right one is let through, wherever
/// the line stands; one that holds no such line is answered with the demand for a password.
pub proof fn law_password_checked(
    buf: Seq<u8>,
    n: int,
    before: Seq<Seq<char>>,
    line: Seq<char>,
    rest: Seq<char>,
    secret: (Seq<u8>, Seq<u8>),
)
    requires
        forall|i: int| 0 <= i < before.len() ==> !(#[trigger] before[i]).contains('\n'),
        !line.contains('\n'),
    ensures
        line_grants(line, secret) ==> request_plan(buf, n, head_lines(before) + (line + seq!['\r', '\n'] + rest), Some(secret))
            == request_plan(buf, n, head_lines(before) + (line + seq!['\r', '\n'] + rest), None),
        (forall|i: int| 0 <= i < before.len() ==> !line_grants(#[trigger] before[i], secret)) ==> request_plan(
            buf,
            n,
            head_lines(before),
            Some(secret),
        ) is AuthRequired,
{
    let head = head_lines(before) + (line + seq!['\r', '\n'] + rest);
    lemma_head_lines(before, line + seq!['\r', '\n'] + rest);
    law_first_line(line, rest);
    assert(lines(head) =~= before + (seq![line] + lines(rest)));
    assert(lines(head)[before.len() as int] == line);
    lemma_head_lines(before, seq![]);
    assert(head_lines(before) + seq![] =~= head_lines(before));
    assert(lines(Seq::<char>::empty()) =~= seq![]) by {
        reveal_with_fuel(crate::seqs::pieces, 2);
        reveal_with_fuel(crate::seqs::until, 2);
    }
    assert(before + seq![] =~= before);
}

/// A line that is not about a password grants nothing.
pub proof fn law_other_lines_grant_nothing(name: Seq<char>, value: Seq<char>, secret: (Seq<u8>, Seq<u8>))
    requires
        is_word(name),
        !name.contains(':'),
        !same_ignore_case(name, "proxy-authorization"@),
    ensures
        !line_grants(name + seq![':'] + value, secret),
        !line_grants(name, secret),
{
    law_cut_at_first(name, ':', value);
    law_trimmed_kept(name);
}

/// Texts that are the same but for case differ in nothing but the case of ASCII letters.
pub proof fn law_same_but_case(a: Seq<char>, b: Seq<char>, i: int)
    requires
        same_ignore_case(a, b),
        0 <= i < a.len(),
    ensures
        a[i] == b[i] || a[i] as u32 + 32 == b[i] as u32 || a[i] as u32 == b[i] as u32 + 32,
        'a' <= a[i] <= 'z' || 'A' <= a[i] <= 'Z' || a[i] == b[i],
{
    assert(lower(a[i]) == lower(b[i]));
}

/// A base64 digit: a letter, a decimal digit, a plus or a slash.
pub open spec fn is_digit64(c: u8) -> bool {
    'A' as u8 <= c <= 'Z' as u8 || 'a' as u8 <= c <= 'z' as u8 || '0' as u8 <= c <= '9' as u8 || c == '+' as u8 || c
        == '/' as u8
}

proof fn lemma_digit64_known(c: u8)
    ensures
        is_digit64(c) <==> sextet(c) is Some,
{
}

proof fn lemma_group64(g: Seq<u8>)
    requires
        0 < g.len() <= 4,
    ensures
        group_bytes(g) is Some <==> g.len() > 1 && forall|i: int| 0 <= i < g.len() ==> is_digit64(#[trigger] g[i]),
        group_bytes(g) matches Some(b) ==> b.len() == 3 * g.len() / 4,
{
    lemma_digit64_known(g[0]);
    lemma_digit64_known(g[1]);
    lemma_digit64_known(g[2]);
    lemma_digit64_known(g[3]);
}

#[verifier::spinoff_prover]
proof fn lemma_digits64(d: Seq<u8>)
    ensures
        groups_bytes(d) is Some <==> d.len() % 4 != 1 && forall|i: int| 0 <= i < d.len() ==> is_digit64(#[trigger] d[i]),
        groups_bytes(d) matches Some(b) ==> b.len() == 3 * d.len() / 4,
    decreases d.len(),
{
    if d.len() > 4 {
        let t = d.skip(4);
        let g = d.take(4);
        lemma_digits64(t);
        lemma_group64(g);
        let whole = forall|i: int| 0 <= i < d.len() ==> is_digit64(#[trigger] d[i]);
        let front = forall|i: int| 0 <= i < g.len() ==> is_digit64(#[trigger] g[i]);
        let back = forall|i: int| 0 <= i < t.len() ==> is_digit64(#[trigger] t[i]);
        assert(whole ==> front && back) by {
            assert forall|i: int| whole && 0 <= i < t.len() implies is_digit64(#[trigger] t[i]) by {
                assert(t[i] == d[i + 4]);
            }
        }
        assert(front && back ==> whole) by {
            assert forall|i: int| front && back && 0 <= i < d.len() implies is_digit64(#[trigger] d[i]) by {
                if i < 4 {
                    assert(g[i] == d[i]);
                } else {
                    assert(t[i - 4] == d[i]);
                }
            }
        }
    } else if d.len() > 0 {
        lemma_group64(d);
    }
}

/// A text without white space and padding is base64 exactly where it is made of digits alone and no group
/// has only one; three bytes come of four digits, and two or one of a shorter last group.
pub proof fn law_base64_digits(s: Seq<u8>)
    requires
        forall|i: int| 0 <= i < s.len() ==> counts(#[trigger] s[i]),
    ensures
        lenient_base64(s) is Some <==> s.len() % 4 != 1 && forall|i: int| 0 <= i < s.len() ==> is_digit64(#[trigger] s[i]),
        lenient_base64(s) matches Some(b) ==> b.len() == 3 * s.len() / 4,
{
    lemma_filter_all(s, |c: u8| counts(c));
    lemma_digits64(s);
}

/// A request whose first line is not made of three words comes to nothing, whatever follows it.
pub proof fn law_short_request(line: Seq<char>, a: Seq<char>, b: Seq<char>, rest: Seq<char>, buf: Seq<u8>, n: int)
    requires
        is_word(a),
        is_word(b),
        line == a || line == a + seq![' '] + b || line == Seq::<char>::empty(),
    ensures
        request_plan(buf, n, head_lines(seq![line]) + rest, None) is Close,
{
    assert(!line.contains('\n')) by {
        if line.contains('\n') {
            let i = line.index_of('\n');
            assert(line[i] == '\n');
            if i < a.len() {
                assert(!is_white(a[i]));
            } else if i > a.len() {
                assert(!is_white(b[i - a.len() - 1]));
            }
        }
    }
    lemma_head_lines(seq![line], rest);
    assert((seq![line] + lines(rest))[0] == line);
    law_first_word(a, ' ', b);
    law_first_word(b, ' ', a);
}

} // verus!
