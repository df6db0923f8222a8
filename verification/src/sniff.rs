//! Finding the name that a client is after in the first bytes that it sends.

use vstd::prelude::*;
use vstd::utf8::encode_utf8;

use crate::mixed::{head_lines, is_word, lemma_head_lines, lemma_trim_end_keeps};
use crate::seqs::{lemma_until_is, until};
use crate::text::{
    chars_of, copy_chars, eq_ignore_case, find_char, has_prefix, is_white, law_white_taken_off, lines, lower, opt_text,
    same_ignore_case, split_lines, string_of, trim, trimmed, utf8_string, utf8_text,
};
use crate::wire::{be16, copy_range, lemma_be16_at, read_u16, same_bytes, u16_at};

verus! {

/// How many bytes are looked at.
pub const SNIFF_BYTES: usize = 1024;

/// Where the extensions of a client hello begin, behind their length, and how long they claim to be.
/// Nothing beyond `end` is looked at.
pub open spec fn extensions(d: Seq<u8>, end: int) -> Option<(int, int)> {
    let a = 44 + d[43];
    if a + 2 > end {
        None
    } else {
        let b = a + 2 + u16_at(d, a);
        if b + 1 > end {
            None
        } else {
            let c = b + 1 + d[b];
            if c + 2 > end {
                None
            } else {
                Some((c + 2, u16_at(d, c)))
            }
        }
    }
}

/// Where the body of the server name extension begins, from `pos` on.
pub open spec fn name_extension(d: Seq<u8>, pos: int, end: int) -> Option<int>
    decreases end - pos,
{
    if pos < 0 || pos + 4 > end {
        None
    } else if u16_at(d, pos) == 0 {
        Some(pos + 4)
    } else if pos + 4 + u16_at(d, pos + 2) > end {
        None
    } else {
        name_extension(d, pos + 4 + u16_at(d, pos + 2), end)
    }
}

/// Where the server name stands in the extensions from `pos` to `end`, and how long it is.
pub open spec fn name_span(d: Seq<u8>, pos: int, end: int) -> Option<(int, int)> {
    match name_extension(d, pos, end) {
        None => None,
        Some(p) => if p + 5 > end || d[p + 2] != 0 || p + 5 + u16_at(d, p + 3) > end {
            None
        } else {
            Some((p + 5, u16_at(d, p + 3)))
        },
    }
}

/// Finds where the extensions of a client hello begin, and how long they claim to be.
pub fn find_extensions(d: &[u8], end: usize) -> (r: Option<(usize, usize)>)
    requires
        44 <= d@.len(),
        end <= d@.len(),
    ensures
        match r {
            Some(x) => extensions(d@, end as int) == Some((x.0 as int, x.1 as int)) && x.0 <= end && x.1 <= 65535,
            None => extensions(d@, end as int) is None,
        },
{
    let a: usize = 44 + d[43] as usize;
    if a > end || end - a < 2 {
        return None;
    }
    let n: usize = read_u16(d, a) as usize;
    if end - a - 2 < n || end - a - 2 - n < 1 {
        return None;
    }
    let b: usize = a + 2 + n;
    let k: usize = d[b] as usize;
    if end - b - 1 < k || end - b - 1 - k < 2 {
        return None;
    }
    let c: usize = b + 1 + k;
    Some((c + 2, read_u16(d, c) as usize))
}

/// Finds where the server name stands in the extensions from `pos` to `end`, and how long it is.
pub fn find_name(d: &[u8], pos: usize, end: usize) -> (r: Option<(usize, usize)>)
    requires
        pos <= end <= d@.len(),
    ensures
        match r {
            Some(x) => name_span(d@, pos as int, end as int) == Some((x.0 as int, x.1 as int)) && x.0 + x.1 <= end,
            None => name_span(d@, pos as int, end as int) is None,
        },
{
    let mut p: usize = pos;
    while end - p >= 4
        invariant
            p <= end,
            end <= d@.len(),
            name_extension(d@, pos as int, end as int) == name_extension(d@, p as int, end as int),
        decreases end - p,
    {
        if read_u16(d, p) == 0 {
            let b: usize = p + 4;
            if end - b < 5 {
                return None;
            }
            let n: usize = read_u16(d, b + 3) as usize;
            if d[b + 2] != 0 || end - b - 5 < n {
                return None;
            }
            return Some((b + 5, n));
        }
        let n: usize = read_u16(d, p + 2) as usize;
        if end - p - 4 < n {
            return None;
        }
        p = p + 4 + n;
    }
    None
}

/// The server name in a client hello; `None` where there is none, or the message is cut off.
pub open spec fn tls_name(d: Seq<u8>) -> Option<Seq<char>> {
    if d.len() < 44 || d[5] != 1 {
        None
    } else {
        match extensions(d, d.len() as int) {
            None => None,
            Some(x) => if x.0 + x.1 > d.len() {
                None
            } else {
                match name_span(d, x.0, x.0 + x.1) {
                    None => None,
                    Some(s) => utf8_text(d.subrange(s.0, s.0 + s.1)),
                }
            },
        }
    }
}

/// Reads the server name in a client hello.
pub fn parse_tls_sni(data: &[u8]) -> (r: Option<String>)
    ensures
        opt_text(r) == tls_name(data@),
{
    if data.len() < 44 || data[5] != 1 {
        return None;
    }
    match find_extensions(data, data.len()) {
        None => None,
        Some(x) => {
            if data.len() - x.0 < x.1 {
                return None;
            }
            match find_name(data, x.0, x.0 + x.1) {
                None => None,
                Some(s) => {
                    let name: Vec<u8> = copy_range(data, s.0, s.0 + s.1);
                    utf8_string(name.as_slice())
                },
            }
        },
    }
}

/// A line that names the host.
pub open spec fn is_host_line(line: Seq<char>) -> bool {
    line.len() >= 5 && same_ignore_case(line.take(5), "host:"@)
}

/// The host in the first host line from line `i` on, without its port; lines behind a blank one do not
/// count.
pub open spec fn named_host(ls: Seq<Seq<char>>, i: int) -> Option<Seq<char>>
    decreases ls.len() - i,
{
    if i < 0 || i >= ls.len() || trimmed(ls[i]).len() == 0 {
        None
    } else if is_host_line(ls[i]) {
        let h = trimmed(ls[i].skip(5));
        Some(h.take(until(h, ':')))
    } else {
        named_host(ls, i + 1)
    }
}

/// The host in a request.
pub open spec fn http_name(d: Seq<u8>) -> Option<Seq<char>> {
    match utf8_text(d) {
        None => None,
        Some(t) => named_host(lines(t), 0),
    }
}

/// Reads the host in a request.
pub fn parse_http_host(data: &[u8]) -> (r: Option<String>)
    ensures
        opt_text(r) == http_name(data@),
{
    let text: String = match utf8_string(data) {
        Some(t) => t,
        None => {
            return None;
        },
    };
    let c: Vec<char> = chars_of(text.as_str());
    let ls: Vec<Vec<char>> = split_lines(c.as_slice());
    let key: Vec<char> = chars_of("host:");
    let ghost v = lines(text@);
    proof {
        reveal_strlit("host:");
    }
    let mut i: usize = 0;
    while i < ls.len()
        invariant
            i <= ls@.len(),
            v == lines(text@),
            utf8_text(data@) == Some(text@),
            ls@.len() == v.len(),
            forall|k: int| 0 <= k < ls@.len() ==> (#[trigger] ls@[k])@ == v[k],
            key@ == "host:"@,
            key@.len() == 5,
            named_host(v, 0) == named_host(v, i as int),
        decreases ls@.len() - i,
    {
        assert(ls@[i as int]@ == v[i as int]);
        if trim(ls[i].as_slice()).len() == 0 {
            return None;
        }
        if ls[i].len() >= 5 {
            let head: Vec<char> = copy_chars(ls[i].as_slice(), 0, 5);
            assert(head@ =~= v[i as int].take(5));
            if eq_ignore_case(head.as_slice(), key.as_slice()) {
                let tail: Vec<char> = copy_chars(ls[i].as_slice(), 5, ls[i].len());
                assert(tail@ =~= v[i as int].skip(5));
                let h: &[char] = trim(tail.as_slice());
                let e: usize = find_char(h, ':');
                let host: Vec<char> = copy_chars(h, 0, e);
                assert(host@ =~= h@.take(e as int));
                return Some(string_of(host.as_slice()));
            }
        }
        i = i + 1;
    }
    None
}

/// The first bytes of a request.
pub open spec fn looks_like_http(d: Seq<u8>) -> bool {
    has_prefix(d, encode_utf8("GET "@)) || has_prefix(d, encode_utf8("POST "@)) || has_prefix(d, encode_utf8("CONNECT "@))
        || has_prefix(d, encode_utf8("PUT "@)) || has_prefix(d, encode_utf8("HEAD "@)) || has_prefix(
        d,
        encode_utf8("OPTIONS "@),
    )
}

fn begins(d: &[u8], p: &str) -> (r: bool)
    ensures
        r == has_prefix(d@, encode_utf8(p@)),
{
    let b: &[u8] = p.as_bytes();
    if b.len() > d.len() {
        return false;
    }
    let head: Vec<u8> = copy_range(d, 0, b.len());
    assert(head@ =~= d@.take(b@.len() as int));
    same_bytes(head.as_slice(), b)
}

/// The name that a client is after, going by its first bytes.
pub open spec fn first_name(d: Seq<u8>) -> Option<Seq<char>> {
    if d.len() > 5 && d[0] == 0x16 {
        tls_name(d)
    } else if looks_like_http(d) {
        http_name(d)
    } else {
        None
    }
}

/// Finds the name that a client is after in its first bytes.
pub fn sniff(data: &[u8]) -> (r: Option<String>)
    ensures
        opt_text(r) == first_name(data@),
{
    if data.len() > 5 && data[0] == 0x16 {
        return parse_tls_sni(data);
    }
    if begins(data, "GET ") || begins(data, "POST ") || begins(data, "CONNECT ") || begins(data, "PUT ") || begins(
        data,
        "HEAD ",
    ) || begins(data, "OPTIONS ") {
        return parse_http_host(data);
    }
    None
}

/// A name that is found in a client hello stands in its bytes.
pub proof fn law_name_within(d: Seq<u8>, pos: int, end: int)
    requires
        0 <= pos,
        end <= d.len(),
    ensures
        name_span(d, pos, end) matches Some(s) ==> pos < s.0 && s.0 + s.1 <= end,
    decreases end - pos,
{
    law_extension_within(d, pos, end);
}

/// An extension that is found begins behind where the search began.
pub proof fn law_extension_within(d: Seq<u8>, pos: int, end: int)
    requires
        0 <= pos,
    ensures
        name_extension(d, pos, end) matches Some(p) ==> pos + 4 <= p <= end,
    decreases end - pos,
{
    if pos + 4 <= end && u16_at(d, pos) != 0 && pos + 4 + u16_at(d, pos + 2) <= end {
        law_extension_within(d, pos + 4 + u16_at(d, pos + 2), end);
    }
}

/// Extensions as they stand in a message: type, length and data each.
pub open spec fn extension_bytes(xs: Seq<(u16, Seq<u8>)>) -> Seq<u8>
    decreases xs.len(),
{
    if xs.len() == 0 {
        seq![]
    } else {
        be16(xs[0].0) + be16(xs[0].1.len() as u16) + xs[0].1 + extension_bytes(xs.drop_first())
    }
}

/// The data of the extension that names the server: a list of one name, of type zero.
pub open spec fn server_name_data(name: Seq<u8>) -> Seq<u8> {
    be16((name.len() + 3) as u16) + seq![0u8] + be16(name.len() as u16) + name
}

/// The extension that names the server.
pub open spec fn named_extension(name: Seq<u8>) -> Seq<u8> {
    be16(0) + be16((name.len() + 5) as u16) + server_name_data(name)
}

/// The parts of a client hello: lengths and versions that do not matter here, random bytes, the session,
/// ciphers, methods, extensions of other types, and what follows them.
pub struct HelloParts {
    pub len: Seq<u8>,
    pub version: Seq<u8>,
    pub random: Seq<u8>,
    pub session: Seq<u8>,
    pub ciphers: Seq<u8>,
    pub methods: Seq<u8>,
    pub others: Seq<(u16, Seq<u8>)>,
    pub tail: Seq<u8>,
}

/// The message up to its extensions.
#[verifier::opaque]
pub open spec fn hello_front(h: HelloParts) -> Seq<u8> {
    seq![1u8] + h.len + h.version + h.random + seq![h.session.len() as u8] + h.session + be16(h.ciphers.len() as u16)
        + h.ciphers + seq![h.methods.len() as u8] + h.methods
}

/// The message with these extensions behind the others.
#[verifier::opaque]
pub open spec fn hello_message(h: HelloParts, named: Seq<u8>) -> Seq<u8> {
    hello_front(h) + be16((extension_bytes(h.others) + named + h.tail).len() as u16) + (extension_bytes(h.others) + named
        + h.tail)
}

/// The parts have their lengths, and none of the other extensions names a server.
pub open spec fn whole_hello(h: HelloParts, named: Seq<u8>) -> bool {
    &&& h.len.len() == 3
    &&& h.version.len() == 2
    &&& h.random.len() == 32
    &&& h.session.len() <= 255
    &&& h.ciphers.len() <= 65535
    &&& h.methods.len() <= 255
    &&& (extension_bytes(h.others) + named + h.tail).len() <= 65535
    &&& forall|i: int| 0 <= i < h.others.len() ==> (#[trigger] h.others[i]).0 != 0 && h.others[i].1.len() <= 65535
}

proof fn lemma_others_passed(d: Seq<u8>, pos: int, xs: Seq<(u16, Seq<u8>)>, end: int)
    requires
        0 <= pos,
        pos + extension_bytes(xs).len() <= end <= d.len(),
        d.subrange(pos, pos + extension_bytes(xs).len()) == extension_bytes(xs),
        forall|i: int| 0 <= i < xs.len() ==> (#[trigger] xs[i]).0 != 0 && xs[i].1.len() <= 65535,
    ensures
        name_extension(d, pos, end) == name_extension(d, pos + extension_bytes(xs).len(), end),
    decreases xs.len(),
{
    if xs.len() > 0 {
        let x = xs[0];
        let rest = xs.drop_first();
        let all = extension_bytes(xs);
        let s = d.subrange(pos, pos + all.len());
        let k = 4 + x.1.len() as int;
        assert(x.0 != 0);
        assert(d.subrange(pos, pos + 2) =~= s.subrange(0, 2));
        assert(s.subrange(0, 2) =~= be16(x.0));
        lemma_be16_at(x.0, d, pos);
        assert(d.subrange(pos + 2, pos + 4) =~= s.subrange(2, 4));
        assert(s.subrange(2, 4) =~= be16(x.1.len() as u16));
        lemma_be16_at(x.1.len() as u16, d, pos + 2);
        assert(all.skip(k) =~= extension_bytes(rest));
        assert(d.subrange(pos + k, pos + k + extension_bytes(rest).len()) =~= s.skip(k));
        assert forall|i: int| 0 <= i < rest.len() implies (#[trigger] rest[i]).0 != 0 && rest[i].1.len() <= 65535 by {
            assert(rest[i] == xs[i + 1]);
        }
        lemma_others_passed(d, pos + k, rest, end);
    }
}

/// What can be seen of a client hello without its extensions: its type, and the length of its session.
pub proof fn lemma_hello_shape(head: Seq<u8>, h: HelloParts, named: Seq<u8>, behind: Seq<u8>)
    requires
        head.len() == 5,
        whole_hello(h, named),
    ensures
        ({
            let d = head + hello_message(h, named) + behind;
            let xs = extension_bytes(h.others) + named + h.tail;
            &&& d.len() >= 44
            &&& d[0] == head[0] && d[3] == head[3] && d[4] == head[4]
            &&& d[5] == 1
            &&& d[43] == h.session.len()
            &&& hello_message(h, named).len() == hello_front(h).len() + 2 + xs.len()
        }),
{
    reveal(hello_front);
    reveal(hello_message);
}

/// Where the extensions of a client hello stand is found from the lengths of the parts before them.
pub proof fn law_extensions_found(head: Seq<u8>, h: HelloParts, named: Seq<u8>, behind: Seq<u8>, end: int)
    requires
        head.len() == 5,
        whole_hello(h, named),
        5 + hello_message(h, named).len() <= end <= (head + hello_message(h, named) + behind).len(),
    ensures
        extensions(head + hello_message(h, named) + behind, end) == Some(
            (
                (5 + hello_front(h).len() + 2) as int,
                (extension_bytes(h.others) + named + h.tail).len() as int,
            ),
        ),
{
    reveal(hello_front);
    reveal(hello_message);
    let d = head + hello_message(h, named) + behind;
    let xs = extension_bytes(h.others) + named + h.tail;
    let a = 44 + h.session.len() as int;
    assert(d[43] == h.session.len() as u8);
    assert(d.subrange(a, a + 2) =~= be16(h.ciphers.len() as u16));
    lemma_be16_at(h.ciphers.len() as u16, d, a);
    let b = a + 2 + h.ciphers.len();
    assert(d[b] == h.methods.len() as u8);
    let c = b + 1 + h.methods.len();
    assert(c == 5 + hello_front(h).len());
    assert(d.subrange(c, c + 2) =~= be16(xs.len() as u16));
    lemma_be16_at(xs.len() as u16, d, c);
}

proof fn lemma_extensions_at(head: Seq<u8>, h: HelloParts, named: Seq<u8>, behind: Seq<u8>)
    requires
        head.len() == 5,
        whole_hello(h, named),
    ensures
        ({
            let d = head + hello_message(h, named) + behind;
            let xs = extension_bytes(h.others) + named + h.tail;
            let from = (5 + hello_front(h).len() + 2) as int;
            from + xs.len() <= d.len() && d.subrange(from, from + xs.len()) == xs
        }),
{
    reveal(hello_message);
    let d = head + hello_message(h, named) + behind;
    let xs = extension_bytes(h.others) + named + h.tail;
    let from = (5 + hello_front(h).len() + 2) as int;
    assert(d.subrange(from, from + xs.len()) =~= xs);
}

proof fn lemma_named_at(d: Seq<u8>, p: int, name: Seq<u8>, last: int)
    requires
        0 <= p,
        name.len() + 5 <= 65535,
        p + 9 + name.len() <= last <= d.len(),
        d.subrange(p, p + 9 + name.len()) == named_extension(name),
    ensures
        name_span(d, p, last) == Some((p + 9, name.len() as int)),
        d.subrange(p + 9, p + 9 + name.len()) == name,
{
    let x = named_extension(name);
    let s = d.subrange(p, p + 9 + name.len());
    assert(d.subrange(p, p + 2) =~= s.subrange(0, 2));
    assert(x.subrange(0, 2) =~= be16(0));
    lemma_be16_at(0, d, p);
    assert(x[6] == 0);
    assert(s[6] == d[p + 6]);
    assert(d.subrange(p + 7, p + 9) =~= s.subrange(7, 9));
    assert(x.subrange(7, 9) =~= be16(name.len() as u16));
    lemma_be16_at(name.len() as u16, d, p + 7);
    assert(d.subrange(p + 9, p + 9 + name.len()) =~= s.subrange(9, 9 + name.len() as int));
    assert(x.subrange(9, 9 + name.len() as int) =~= name);
}

/// The name that a client hello is for is found in it, whatever other extensions stand before and behind
/// it and whatever the lengths of the other parts are: where the name stands, and how long it is.
pub proof fn law_name_span_found(head: Seq<u8>, h: HelloParts, name: Seq<u8>, behind: Seq<u8>)
    requires
        head.len() == 5,
        name.len() + 5 <= 65535,
        whole_hello(h, named_extension(name)),
    ensures
        ({
            let d = head + hello_message(h, named_extension(name)) + behind;
            let from = (5 + hello_front(h).len() + 2) as int;
            let place = (from + extension_bytes(h.others).len() + 9) as int;
            &&& name_span(d, from, from + (extension_bytes(h.others) + named_extension(name) + h.tail).len()) == Some(
                (place, name.len() as int),
            )
            &&& place + name.len() <= d.len()
            &&& d.subrange(place, place + name.len()) == name
        }),
{
    let named = named_extension(name);
    let d = head + hello_message(h, named) + behind;
    let xs = extension_bytes(h.others) + named + h.tail;
    let from = (5 + hello_front(h).len() + 2) as int;
    let last = from + xs.len();
    let e = extension_bytes(h.others);
    lemma_extensions_at(head, h, named, behind);
    let s = d.subrange(from, last);
    assert(d.subrange(from, from + e.len()) =~= s.subrange(0, e.len() as int));
    assert(xs.subrange(0, e.len() as int) =~= e);
    lemma_others_passed(d, from, h.others, last);
    let p = from + e.len();
    assert(named.len() == 9 + name.len());
    assert(d.subrange(p, p + 9 + name.len()) =~= s.subrange(e.len() as int, e.len() as int + 9 + name.len()));
    assert(xs.subrange(e.len() as int, e.len() as int + 9 + name.len()) =~= named);
    lemma_named_at(d, p, name, last);
}

/// The name that a client is after is read off its hello.
pub proof fn law_hello_name_read(head: Seq<u8>, h: HelloParts, name: Seq<char>, behind: Seq<u8>)
    requires
        head.len() == 5,
        head[0] == 22,
        encode_utf8(name).len() + 5 <= 65535,
        whole_hello(h, named_extension(encode_utf8(name))),
    ensures
        first_name(
            head + hello_message(
                h,
                named_extension(encode_utf8(name)),
            ) + behind,
        ) == Some(name),
{
    let n = encode_utf8(name);
    let named = named_extension(n);
    let d = head + hello_message(h, named) + behind;
    law_extensions_found(head, h, named, behind, d.len() as int);
    law_name_span_found(head, h, n, behind);
    lemma_hello_shape(head, h, named, behind);
    vstd::utf8::encode_utf8_valid_utf8(name);
    vstd::utf8::encode_utf8_decode_utf8(name);
}

/// A hello without the extension that names a server gives no name.
pub proof fn law_nameless_hello(head: Seq<u8>, h: HelloParts, behind: Seq<u8>)
    requires
        head.len() == 5,
        whole_hello(h, seq![]),
        h.tail.len() == 0,
    ensures
        tls_name(head + hello_message(h, seq![]) + behind) is None,
{
    reveal(hello_front);
    reveal(hello_message);
    let none = Seq::<u8>::empty();
    let d = head + hello_message(h, none) + behind;
    let e = extension_bytes(h.others);
    law_extensions_found(head, h, none, behind, d.len() as int);
    assert(e + none + h.tail =~= e);
    let from = (5 + hello_front(h).len() + 2) as int;
    assert(d.subrange(from, from + e.len()) =~= e);
    lemma_others_passed(d, from, h.others, from + e.len());
}

/// A line that is neither blank nor names the host.
pub open spec fn other_line(s: Seq<char>) -> bool {
    &&& s.len() > 0 && !is_white(s[0])
    &&& !s.contains('\n')
    &&& !(s.len() >= 5 && same_ignore_case(s.take(5), "host:"@))
}

proof fn lemma_lines_passed(ls: Seq<Seq<char>>, i: int, k: int)
    requires
        0 <= i <= k <= ls.len(),
        forall|j: int| i <= j < k ==> other_line(#[trigger] ls[j]),
    ensures
        named_host(ls, i) == named_host(ls, k),
    decreases k - i,
{
    if i < k {
        assert(other_line(ls[i]));
        lemma_trim_end_keeps(ls[i]);
        lemma_lines_passed(ls, i + 1, k);
    }
}

/// The host of a request is that of its first host line, however its name is written, without the white
/// space around it and without its port.
pub proof fn law_request_host(
    before: Seq<Seq<char>>,
    name: Seq<char>,
    pad: (Seq<char>, Seq<char>),
    host: Seq<char>,
    port: Seq<char>,
    rest: Seq<char>,
)
    requires
        forall|i: int| 0 <= i < before.len() ==> other_line(#[trigger] before[i]),
        same_ignore_case(name, "host:"@),
        is_word(host),
        !host.contains(':'),
        port.len() == 0 || (is_word(port) && port[0] == ':'),
        forall|i: int| 0 <= i < pad.0.len() ==> is_white(#[trigger] pad.0[i]) && pad.0[i] != '\n',
        forall|i: int| 0 <= i < pad.1.len() ==> is_white(#[trigger] pad.1[i]) && pad.1[i] != '\n',
    ensures
        http_name(encode_utf8(head_lines(before + seq![name + (pad.0 + (host + port) + pad.1)]) + rest)) == Some(host),
{
    reveal_strlit("host:");
    let v = host + port;
    let value = pad.0 + v + pad.1;
    let hl = name + value;
    let ls = before + seq![hl];
    let text = head_lines(ls) + rest;
    let k = before.len() as int;
    vstd::utf8::encode_utf8_valid_utf8(text);
    vstd::utf8::encode_utf8_decode_utf8(text);
    assert forall|i: int| 0 <= i < 5 implies !is_white(#[trigger] name[i]) by {
        assert(lower(name[i]) == lower("host:"@[i]));
    }
    assert forall|i: int| 0 <= i < v.len() implies !is_white(#[trigger] v[i]) by {
        if i < host.len() {
            assert(v[i] == host[i]);
        } else {
            assert(v[i] == port[i - host.len()]);
        }
    }
    assert forall|i: int| 0 <= i < hl.len() implies hl[i] != '\n' by {
        if i < 5 {
            assert(hl[i] == name[i]);
        } else {
            let j = i - 5;
            assert(hl[i] == value[j]);
            if j < pad.0.len() {
                assert(value[j] == pad.0[j]);
            } else if j < pad.0.len() + v.len() {
                assert(value[j] == v[j - pad.0.len()]);
            } else {
                assert(value[j] == pad.1[j - pad.0.len() - v.len()]);
            }
        }
    }
    assert forall|i: int| 0 <= i < ls.len() implies !(#[trigger] ls[i]).contains('\n') by {
        if i < k {
            assert(ls[i] == before[i]);
        }
    }
    lemma_head_lines(ls, rest);
    let all = ls + lines(rest);
    assert forall|j: int| 0 <= j < k implies other_line(#[trigger] all[j]) by {
        assert(all[j] == before[j]);
    }
    lemma_lines_passed(all, 0, k);
    assert(all[k] == hl);
    assert(hl[0] == name[0]);
    lemma_trim_end_keeps(hl);
    assert(hl.take(5) =~= name);
    assert(hl.skip(5) =~= value);
    law_white_taken_off(pad.0, v, pad.1);
    assert forall|j: int| 0 <= j < host.len() implies v[j] != ':' by {
        assert(v[j] == host[j]);
        assert(host.contains(host[j]));
    }
    lemma_until_is(v, ':', host.len() as int);
    assert(v.take(host.len() as int) =~= host);
}

/// The methods of requests that are looked into.
pub open spec fn looked_into(m: Seq<char>) -> bool {
    m == "GET "@ || m == "POST "@ || m == "CONNECT "@ || m == "PUT "@ || m == "HEAD "@ || m == "OPTIONS "@
}

/// Requests with these methods are looked into for their host.
pub proof fn law_requests_looked_into(m: Seq<char>, rest: Seq<u8>)
    requires
        looked_into(m),
    ensures
        first_name(encode_utf8(m) + rest) == http_name(encode_utf8(m) + rest),
{
    reveal_strlit("GET ");
    reveal_strlit("POST ");
    reveal_strlit("CONNECT ");
    reveal_strlit("PUT ");
    reveal_strlit("HEAD ");
    reveal_strlit("OPTIONS ");
    vstd::utf8::is_ascii_chars_encode_utf8(m);
    let d = encode_utf8(m) + rest;
    assert(d.take(encode_utf8(m).len() as int) =~= encode_utf8(m));
    assert(encode_utf8(m)[0] == m[0] as u8);
    assert(d[0] == m[0] as u8);
}

/// What begins neither as a record nor as one of these requests gives no name.
pub proof fn law_others_not_looked_into(d: Seq<u8>)
    requires
        d.len() == 0 || (d[0] != 22 && d[0] != 71 && d[0] != 80 && d[0] != 67 && d[0] != 72 && d[0] != 79),
    ensures
        first_name(d) is None,
{
    reveal_strlit("GET ");
    reveal_strlit("POST ");
    reveal_strlit("CONNECT ");
    reveal_strlit("PUT ");
    reveal_strlit("HEAD ");
    reveal_strlit("OPTIONS ");
    lemma_first_byte(d, "GET "@);
    lemma_first_byte(d, "POST "@);
    lemma_first_byte(d, "CONNECT "@);
    lemma_first_byte(d, "PUT "@);
    lemma_first_byte(d, "HEAD "@);
    lemma_first_byte(d, "OPTIONS "@);
}

proof fn lemma_first_byte(d: Seq<u8>, m: Seq<char>)
    requires
        m.len() > 0,
        vstd::utf8::is_ascii_chars(m),
    ensures
        has_prefix(d, encode_utf8(m)) ==> d.len() > 0 && d[0] == m[0] as u8,
{
    vstd::utf8::is_ascii_chars_encode_utf8(m);
    assert(encode_utf8(m)[0] == m[0] as u8);
    if has_prefix(d, encode_utf8(m)) {
        assert(d.take(encode_utf8(m).len() as int)[0] == d[0]);
    }
}

} // verus!
