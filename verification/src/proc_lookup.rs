//! Finding the program behind a local connection: how the system lists sockets and their owners.

use vstd::prelude::*;

use crate::ip::{is_loopback_ip, SocketAddr, SocketView};
use crate::text::{
    chars_of, copy_chars, decimal, lines, opt_text, parse_uint, push_decimal, push_text, same_chars, split_lines,
    split_words, string_of, uint_text, words,
};

verus! {

/// An upper-case hexadecimal digit.
pub open spec fn hex_upper(n: int) -> char {
    if n < 10 {
        (48 + n) as char
    } else {
        (55 + n) as char
    }
}

/// A byte as two upper-case hexadecimal digits.
pub open spec fn hex_byte(b: u8) -> Seq<char> {
    seq![hex_upper(b as int / 16), hex_upper(b as int % 16)]
}

fn push_hex(out: &mut Vec<char>, b: u8)
    ensures
        final(out)@ == old(out)@ + hex_byte(b),
{
    let hi: u8 = b / 16;
    let lo: u8 = b % 16;
    out.push(
        if hi < 10 {
            (48 + hi) as char
        } else {
            (55 + hi) as char
        },
    );
    out.push(
        if lo < 10 {
            (48 + lo) as char
        } else {
            (55 + lo) as char
        },
    );
    assert(out@ =~= old(out)@ + hex_byte(b));
}

/// The first `n` words of four octets, each with its octets in reverse order.
pub open spec fn words_reversed(o: Seq<u8>, n: int) -> Seq<char>
    decreases n,
{
    if n <= 0 {
        seq![]
    } else {
        words_reversed(o, n - 1) + hex_byte(o[4 * n - 1]) + hex_byte(o[4 * n - 2]) + hex_byte(o[4 * n - 3]) + hex_byte(
            o[4 * n - 4],
        )
    }
}

/// How the system writes the local end of a connection.
pub open spec fn listed_as(a: SocketView) -> Seq<char> {
    let port = hex_byte((a.port() / 256) as u8) + hex_byte((a.port() % 256) as u8);
    match a {
        SocketView::V4(o, _) => words_reversed(o, 1) + seq![':'] + port,
        SocketView::V6(o, _, _) => words_reversed(o, 4) + seq![':'] + port,
    }
}

fn push_words(out: &mut Vec<char>, o: &[u8], n: usize)
    requires
        o@.len() == 4 * n,
        n <= 4,
    ensures
        final(out)@ == old(out)@ + words_reversed(o@, n as int),
{
    let mut k: usize = 0;
    assert(out@ + words_reversed(o@, 0) =~= out@);
    let ghost start = out@;
    while k < n
        invariant
            k <= n <= 4,
            o@.len() == 4 * n,
            out@ == start + words_reversed(o@, k as int),
        decreases n - k,
    {
        push_hex(out, o[4 * k + 3]);
        push_hex(out, o[4 * k + 2]);
        push_hex(out, o[4 * k + 1]);
        push_hex(out, o[4 * k]);
        assert(out@ =~= start + words_reversed(o@, k + 1));
        k = k + 1;
    }
}

/// How the system writes the local end of a connection.
pub fn proc_hex_local(peer: SocketAddr) -> (r: String)
    ensures
        r@ == listed_as(peer@),
{
    let mut out: Vec<char> = Vec::new();
    match peer {
        SocketAddr::V4(o, _) => push_words(&mut out, o.as_slice(), 1),
        SocketAddr::V6(o, _, _) => push_words(&mut out, o.as_slice(), 4),
    }
    let port: u16 = peer.port();
    out.push(':');
    push_hex(&mut out, (port / 256) as u8);
    push_hex(&mut out, (port % 256) as u8);
    assert(out@ =~= listed_as(peer@));
    string_of(out.as_slice())
}

/// The file in which the system lists connections.
pub open spec fn list_path(a: SocketView) -> Seq<char> {
    match a {
        SocketView::V4(_, _) => "/proc/net/tcp"@,
        SocketView::V6(_, _, _) => "/proc/net/tcp6"@,
    }
}

/// Where to look for a connection, and as what; `None` for one from another machine, whose program
/// cannot be known.
pub fn lookup_plan(peer: &SocketAddr) -> (r: Option<(&'static str, String)>)
    ensures
        match r {
            Some(x) => is_loopback_ip(peer@.ip()) && x.0@ == list_path(peer@) && x.1@ == listed_as(peer@),
            None => !is_loopback_ip(peer@.ip()),
        },
{
    if !peer.ip().is_loopback() {
        return None;
    }
    let path: &'static str = if peer.is_ipv6() {
        "/proc/net/tcp6"
    } else {
        "/proc/net/tcp"
    };
    Some((path, proc_hex_local(*peer)))
}

/// The number of the socket in the first line from line `i` on that lists the connection. A line with
/// fewer than two columns ends the search.
pub open spec fn inode_from(ls: Seq<Seq<char>>, i: int, want: Seq<char>) -> Option<int>
    decreases ls.len() - i,
{
    if i < 0 || i >= ls.len() {
        None
    } else {
        let w = words(ls[i]);
        if w.len() < 2 {
            None
        } else if w[1] != want {
            inode_from(ls, i + 1, want)
        } else if w.len() < 10 {
            None
        } else {
            uint_text(w[9], 0xffff_ffff_ffff_ffff)
        }
    }
}

/// Finds the number of the socket of a connection in the system's list. The first line is a heading.
pub fn find_inode(content: &str, want: &str) -> (r: Option<u64>)
    ensures
        match r {
            Some(n) => inode_from(lines(content@), 1, want@) == Some(n as int),
            None => inode_from(lines(content@), 1, want@) is None,
        },
{
    let c: Vec<char> = chars_of(content);
    let wanted: Vec<char> = chars_of(want);
    let ls: Vec<Vec<char>> = split_lines(c.as_slice());
    let ghost v = lines(content@);
    let mut i: usize = 1;
    while i < ls.len()
        invariant
            1 <= i,
            v == lines(content@),
            ls@.len() == v.len(),
            forall|k: int| 0 <= k < ls@.len() ==> (#[trigger] ls@[k])@ == v[k],
            wanted@ == want@,
            inode_from(v, 1, want@) == inode_from(v, i as int, want@),
        decreases ls@.len() - i,
    {
        assert(ls@[i as int]@ == v[i as int]);
        let w: Vec<Vec<char>> = split_words(ls[i].as_slice());
        if w.len() < 2 {
            return None;
        }
        assert(w@[1]@ == words(v[i as int])[1]);
        if same_chars(w[1].as_slice(), wanted.as_slice()) {
            if w.len() < 10 {
                return None;
            }
            assert(w@[9]@ == words(v[i as int])[9]);
            return parse_uint(w[9].as_slice(), u64::MAX);
        }
        i = i + 1;
    }
    None
}

/// How the system writes that a file is a socket.
pub open spec fn socket_link(inode: u64) -> Seq<char> {
    "socket:["@ + decimal(inode as nat) + seq![']']
}

/// How the system writes that a file is a socket.
pub fn link_text(inode: u64) -> (r: String)
    ensures
        r@ == socket_link(inode),
{
    let mut out: Vec<char> = Vec::new();
    push_text(&mut out, "socket:[");
    push_decimal(&mut out, inode);
    out.push(']');
    assert(out@ =~= socket_link(inode));
    string_of(out.as_slice())
}

/// The process that a directory stands for.
pub fn pid_of(dir: &str) -> (r: Option<u32>)
    ensures
        match r {
            Some(n) => uint_text(dir@, 0xffff_ffff) == Some(n as int),
            None => uint_text(dir@, 0xffff_ffff) is None,
        },
{
    let c: Vec<char> = chars_of(dir);
    match parse_uint(c.as_slice(), 0xffff_ffff) {
        Some(n) => Some(n as u32),
        None => None,
    }
}

/// A text without the line feeds at its end.
pub open spec fn without_newlines(s: Seq<char>) -> Seq<char>
    decreases s.len(),
{
    if s.len() > 0 && s.last() == '\n' {
        without_newlines(s.drop_last())
    } else {
        s
    }
}

/// The name of a program, as the system gives it; `None` where it gives none.
pub fn program_name(comm: &str) -> (r: Option<String>)
    ensures
        opt_text(r) == (if without_newlines(comm@).len() == 0 {
            None
        } else {
            Some(without_newlines(comm@))
        }),
{
    let c: Vec<char> = chars_of(comm);
    let mut n: usize = c.len();
    assert(comm@.take(n as int) =~= comm@);
    while n > 0 && c[n - 1] == '\n'
        invariant
            n <= c@.len(),
            c@ == comm@,
            without_newlines(comm@) == without_newlines(comm@.take(n as int)),
        decreases n,
    {
        assert(comm@.take(n as int).drop_last() =~= comm@.take(n - 1));
        n = n - 1;
    }
    if n == 0 {
        return None;
    }
    let name: Vec<char> = copy_chars(c.as_slice(), 0, n);
    assert(name@ =~= comm@.take(n as int));
    Some(string_of(name.as_slice()))
}

/// The value of an upper-case hexadecimal digit.
pub open spec fn upper_value(c: char) -> int {
    if '0' <= c <= '9' {
        c as u32 - 48
    } else {
        c as u32 - 55
    }
}

/// Two digits stand for a byte, the first of them counting sixteen.
pub proof fn law_byte_digits(b: u8)
    ensures
        hex_byte(b).len() == 2,
        16 * upper_value(hex_byte(b)[0]) + upper_value(hex_byte(b)[1]) == b,
{
    let h = b as int / 16;
    let l = b as int % 16;
    assert(upper_value(hex_upper(h)) == h);
    assert(upper_value(hex_upper(l)) == l);
}

/// The system lists the octets of each group of four in reverse order, and the port as it is.
pub proof fn law_listed_reversed(o: Seq<u8>, n: int, i: int, port: u16)
    requires
        o.len() == 4 * n,
        n == 1 || n == 4,
        0 <= i < n,
    ensures
        ({
            let s = if n == 1 {
                listed_as(SocketView::V4(o, port))
            } else {
                listed_as(SocketView::V6(o, port, 0))
            };
            &&& s.len() == 8 * n + 5
            &&& s.subrange(8 * i, 8 * i + 2) == hex_byte(o[4 * i + 3])
            &&& s.subrange(8 * i + 2, 8 * i + 4) == hex_byte(o[4 * i + 2])
            &&& s.subrange(8 * i + 4, 8 * i + 6) == hex_byte(o[4 * i + 1])
            &&& s.subrange(8 * i + 6, 8 * i + 8) == hex_byte(o[4 * i])
            &&& s[8 * n] == ':'
            &&& s.subrange(8 * n + 1, 8 * n + 3) == hex_byte((port / 256) as u8)
            &&& s.subrange(8 * n + 3, 8 * n + 5) == hex_byte((port % 256) as u8)
        }),
{
    lemma_words_at(o, n, i);
    let w = words_reversed(o, n);
    let p = hex_byte((port / 256) as u8) + hex_byte((port % 256) as u8);
    let s = w + seq![':'] + p;
    assert(s.subrange(8 * i, 8 * i + 2) =~= w.subrange(8 * i, 8 * i + 2));
    assert(s.subrange(8 * i + 2, 8 * i + 4) =~= w.subrange(8 * i + 2, 8 * i + 4));
    assert(s.subrange(8 * i + 4, 8 * i + 6) =~= w.subrange(8 * i + 4, 8 * i + 6));
    assert(s.subrange(8 * i + 6, 8 * i + 8) =~= w.subrange(8 * i + 6, 8 * i + 8));
    assert(s.subrange(8 * n + 1, 8 * n + 3) =~= hex_byte((port / 256) as u8));
    assert(s.subrange(8 * n + 3, 8 * n + 5) =~= hex_byte((port % 256) as u8));
}

proof fn lemma_words_at(o: Seq<u8>, n: int, i: int)
    requires
        0 <= i < n,
    ensures
        words_reversed(o, n).len() == 8 * n,
        words_reversed(o, n).subrange(8 * i, 8 * i + 2) == hex_byte(o[4 * i + 3]),
        words_reversed(o, n).subrange(8 * i + 2, 8 * i + 4) == hex_byte(o[4 * i + 2]),
        words_reversed(o, n).subrange(8 * i + 4, 8 * i + 6) == hex_byte(o[4 * i + 1]),
        words_reversed(o, n).subrange(8 * i + 6, 8 * i + 8) == hex_byte(o[4 * i]),
    decreases n,
{
    let w = words_reversed(o, n);
    let v = words_reversed(o, n - 1);
    lemma_words_len(o, n - 1);
    if i < n - 1 {
        lemma_words_at(o, n - 1, i);
        assert(w.subrange(8 * i, 8 * i + 2) =~= v.subrange(8 * i, 8 * i + 2));
        assert(w.subrange(8 * i + 2, 8 * i + 4) =~= v.subrange(8 * i + 2, 8 * i + 4));
        assert(w.subrange(8 * i + 4, 8 * i + 6) =~= v.subrange(8 * i + 4, 8 * i + 6));
        assert(w.subrange(8 * i + 6, 8 * i + 8) =~= v.subrange(8 * i + 6, 8 * i + 8));
    } else {
        assert(w.subrange(8 * i, 8 * i + 2) =~= hex_byte(o[4 * i + 3]));
        assert(w.subrange(8 * i + 2, 8 * i + 4) =~= hex_byte(o[4 * i + 2]));
        assert(w.subrange(8 * i + 4, 8 * i + 6) =~= hex_byte(o[4 * i + 1]));
        assert(w.subrange(8 * i + 6, 8 * i + 8) =~= hex_byte(o[4 * i]));
    }
}

proof fn lemma_words_len(o: Seq<u8>, n: int)
    requires
        0 <= n,
    ensures
        words_reversed(o, n).len() == 8 * n,
    decreases n,
{
    if n > 0 {
        lemma_words_len(o, n - 1);
    }
}

/// The socket of a connection is in the tenth column of the first line that has the connection in its
/// second; the lines before it, which list others, make no difference, and without such a line there is
/// none.
pub proof fn law_socket_found(ls: Seq<Seq<char>>, i: int, k: int, want: Seq<char>)
    requires
        0 <= i <= k <= ls.len(),
        forall|j: int| i <= j < k ==> words(#[trigger] ls[j]).len() >= 2 && words(ls[j])[1] != want,
    ensures
        k == ls.len() ==> inode_from(ls, i, want) is None,
        k < ls.len() && words(ls[k]).len() >= 10 && words(ls[k])[1] == want ==> inode_from(ls, i, want) == uint_text(
            words(ls[k])[9],
            0xffff_ffff_ffff_ffff,
        ),
    decreases k - i,
{
    if i < k {
        assert(words(ls[i])[1] != want);
        law_socket_found(ls, i + 1, k, want);
    }
}

/// Nothing but line feeds at the end is taken off the name of a program.
pub proof fn law_newlines_off(name: Seq<char>)
    ensures
        without_newlines(name + seq!['\n']) == without_newlines(name),
        name.len() == 0 || name.last() != '\n' ==> without_newlines(name) == name,
{
    assert((name + seq!['\n']).drop_last() =~= name);
    assert((name + seq!['\n']).last() == '\n');
}

/// The link to a socket holds its number.
pub proof fn law_link_number(inode: u64)
    ensures
        ({
            let s = socket_link(inode);
            &&& s.take(8) == "socket:["@
            &&& s.last() == ']'
            &&& uint_text(s.subrange(8, s.len() - 1), 0xffff_ffff_ffff_ffff) == Some(inode as int)
        }),
{
    reveal_strlit("socket:[");
    let s = socket_link(inode);
    assert(s.take(8) =~= "socket:["@);
    assert(s.subrange(8, s.len() - 1) =~= decimal(inode as nat));
    crate::text::law_decimal_roundtrip(inode as nat, 0xffff_ffff_ffff_ffff);
}

} // verus!
