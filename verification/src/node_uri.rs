//! Nodes written as a URI: password, server, port and the name of the camouflage site.

use vstd::prelude::*;
use vstd::slice::slice_subrange;
use vstd::utf8::{decode_utf8, encode_utf8, is_char_boundary, is_continuation_byte, valid_utf8};

use crate::seqs::{last_index, lemma_last_index_bounds, lemma_last_index_is, pieces};
use crate::text::{
    chars_of, copy_chars, cut, cut_at, decimal, has_prefix, is_digit, is_white, law_cut_at_first,
    law_decimal_roundtrip, law_trimmed_kept, law_white_taken_off, lemma_colon_port, lemma_decimal_value, parse_uint,
    push_text, read_utf8, rfind_char, same_chars, split_char, starts_with, string_of, trim, trimmed, uint_text,
    utf8_fault,
};

verus! {

/// A node.
#[derive(Debug)]
pub struct NodeUri {
    pub password: String,
    pub host: String,
    pub port: u16,
    pub sni: String,
}

/// Why a text is no node.
#[derive(PartialEq, Eq, Debug)]
pub enum UriError {
    Scheme,
    NoAt,
    NoPort,
    /// This is no port.
    BadPort(String),
    PortZero,
    /// An escape is cut off: what is left of the text from its percent sign on.
    CutEscape(String),
    /// This behind a percent sign is no hexadecimal number.
    BadEscape(String),
    /// What was escaped is no text: what is said of the fault in it.
    NotUtf8(String),
    EmptyPassword,
    EmptyHost,
    NoSni,
}

/// Why a text is no node, as a value.
#[verifier::ext_equal]
pub enum UriFault {
    Scheme,
    NoAt,
    NoPort,
    BadPort(Seq<char>),
    PortZero,
    CutEscape(Seq<char>),
    BadEscape(Seq<char>),
    NotUtf8(Seq<char>),
    EmptyPassword,
    EmptyHost,
    NoSni,
}

impl View for UriError {
    type V = UriFault;

    open spec fn view(&self) -> UriFault {
        match *self {
            UriError::Scheme => UriFault::Scheme,
            UriError::NoAt => UriFault::NoAt,
            UriError::NoPort => UriFault::NoPort,
            UriError::BadPort(p) => UriFault::BadPort(p@),
            UriError::PortZero => UriFault::PortZero,
            UriError::CutEscape(t) => UriFault::CutEscape(t@),
            UriError::BadEscape(h) => UriFault::BadEscape(h@),
            UriError::NotUtf8(t) => UriFault::NotUtf8(t@),
            UriError::EmptyPassword => UriFault::EmptyPassword,
            UriError::EmptyHost => UriFault::EmptyHost,
            UriError::NoSni => UriFault::NoSni,
        }
    }
}

/// What the user is told.
pub open spec fn uri_error_text(e: UriFault) -> Seq<char> {
    match e {
        UriFault::Scheme => "不是 mirage:// 开头的节点 URI"@,
        UriFault::NoAt => "缺少 '@' 分隔符 (格式: mirage://密码@host:port?sni=...)"@,
        UriFault::NoPort => "缺少端口 (格式: host:port)"@,
        UriFault::BadPort(p) => "端口非法: `"@ + p + "`"@,
        UriFault::PortZero => "端口不能为 0"@,
        UriFault::CutEscape(t) => "百分号转义不完整: ..."@ + t,
        UriFault::BadEscape(h) => "非法百分号转义: %"@ + h,
        UriFault::NotUtf8(t) => t,
        UriFault::EmptyPassword => "密码为空"@,
        UriFault::EmptyHost => "host 为空"@,
        UriFault::NoSni => "缺少 sni 参数 (伪装域名, 必须与服务端一致)"@,
    }
}

impl UriError {
    /// What the user is told.
    pub fn message(&self) -> (r: String)
        ensures
            r@ == uri_error_text(self@),
    {
        let mut out: Vec<char> = Vec::new();
        match self {
            UriError::Scheme => push_text(&mut out, "不是 mirage:// 开头的节点 URI"),
            UriError::NoAt => push_text(&mut out, "缺少 '@' 分隔符 (格式: mirage://密码@host:port?sni=...)"),
            UriError::NoPort => push_text(&mut out, "缺少端口 (格式: host:port)"),
            UriError::BadPort(p) => {
                push_text(&mut out, "端口非法: `");
                push_text(&mut out, p.as_str());
                push_text(&mut out, "`");
            },
            UriError::PortZero => push_text(&mut out, "端口不能为 0"),
            UriError::CutEscape(t) => {
                push_text(&mut out, "百分号转义不完整: ...");
                push_text(&mut out, t.as_str());
            },
            UriError::BadEscape(h) => {
                push_text(&mut out, "非法百分号转义: %");
                push_text(&mut out, h.as_str());
            },
            UriError::NotUtf8(t) => push_text(&mut out, t.as_str()),
            UriError::EmptyPassword => push_text(&mut out, "密码为空"),
            UriError::EmptyHost => push_text(&mut out, "host 为空"),
            UriError::NoSni => push_text(&mut out, "缺少 sni 参数 (伪装域名, 必须与服务端一致)"),
        }
        assert(out@ =~= uri_error_text(self@));
        string_of(out.as_slice())
    }
}

/// The value of a hexadecimal digit.
pub open spec fn nibble(b: u8) -> Option<int> {
    if 48 <= b <= 57 {
        Some(b - 48)
    } else if 65 <= b <= 70 {
        Some(b - 55)
    } else if 97 <= b <= 102 {
        Some(b - 87)
    } else {
        None
    }
}

fn hex_nibble(b: u8) -> (r: Option<u8>)
    ensures
        match r {
            Some(v) => nibble(b) == Some(v as int) && v < 16,
            None => nibble(b) is None,
        },
{
    if 48 <= b && b <= 57 {
        Some(b - 48)
    } else if 65 <= b && b <= 70 {
        Some(b - 55)
    } else if 97 <= b && b <= 102 {
        Some(b - 87)
    } else {
        None
    }
}

/// The byte that two characters behind a percent sign stand for: two digits, or one behind a plus
/// sign.
pub open spec fn escaped(a: u8, b: u8) -> Option<u8> {
    match nibble(b) {
        None => None,
        Some(lo) => if a == 43 {
            Some(lo as u8)
        } else {
            match nibble(a) {
                None => None,
                Some(hi) => Some((hi * 16 + lo) as u8),
            }
        },
    }
}

/// What is wrong with two bytes behind a percent sign that stand for no byte.
pub open spec fn escape_fault(two: Seq<u8>) -> UriFault {
    if valid_utf8(two) {
        UriFault::BadEscape(decode_utf8(two))
    } else {
        UriFault::NotUtf8(utf8_fault(two))
    }
}

/// The bytes that a text with escapes stands for. A plus sign stands for itself.
pub open spec fn unescaped(b: Seq<u8>) -> Result<Seq<u8>, UriFault>
    decreases b.len(),
{
    if b.len() == 0 {
        Ok(seq![])
    } else if b[0] != 37 {
        match unescaped(b.skip(1)) {
            Ok(t) => Ok(seq![b[0]] + t),
            Err(e) => Err(e),
        }
    } else if b.len() < 3 {
        Err(UriFault::CutEscape(decode_utf8(b)))
    } else {
        match escaped(b[1], b[2]) {
            None => Err(escape_fault(b.subrange(1, 3))),
            Some(v) => match unescaped(b.skip(3)) {
                Ok(t) => Ok(seq![v] + t),
                Err(e) => Err(e),
            },
        }
    }
}

/// The text that a text with escapes stands for.
pub open spec fn percent_text(s: Seq<char>) -> Result<Seq<char>, UriFault> {
    match unescaped(encode_utf8(s)) {
        Err(e) => Err(e),
        Ok(b) => if valid_utf8(b) {
            Ok(decode_utf8(b))
        } else {
            Err(UriFault::NotUtf8(utf8_fault(b)))
        },
    }
}

/// A result with its text as characters.
pub open spec fn text_result(r: Result<String, UriError>) -> Result<Seq<char>, UriFault> {
    match r {
        Ok(s) => Ok(s@),
        Err(e) => Err(e@),
    }
}

fn bad_escape(two: &[u8]) -> (r: UriError)
    ensures
        r@ == escape_fault(two@),
{
    match read_utf8(two) {
        Ok(t) => UriError::BadEscape(t),
        Err(t) => UriError::NotUtf8(t),
    }
}

/// A percent sign begins a character: what follows from it on is a text.
proof fn lemma_text_from(s: Seq<char>, i: int)
    requires
        0 <= i < encode_utf8(s).len(),
        encode_utf8(s)[i] == 37,
    ensures
        valid_utf8(encode_utf8(s).skip(i)),
{
    let b = encode_utf8(s);
    vstd::utf8::encode_utf8_valid_utf8(s);
    assert(!is_continuation_byte(b[i]));
    vstd::utf8::is_char_boundary_iff_not_is_continuation_byte(b, i);
    assert(is_char_boundary(b, i));
    vstd::utf8::valid_utf8_split(b, i);
    assert(b.subrange(i, b.len() as int) =~= b.skip(i));
}

/// Replaces escapes by what they stand for.
pub fn percent_decode(s: &str) -> (r: Result<String, UriError>)
    ensures
        text_result(r) == percent_text(s@),
{
    let b: &[u8] = s.as_bytes();
    let mut out: Vec<u8> = Vec::new();
    let mut i: usize = 0;
    let ghost all = unescaped(b@);
    assert(b@.skip(0) =~= b@);
    assert(all is Ok ==> all->Ok_0 =~= seq![] + all->Ok_0);
    while i < b.len()
        invariant
            i <= b@.len(),
            b@ == encode_utf8(s@),
            all == unescaped(b@),
            match unescaped(b@.skip(i as int)) {
                Ok(t) => all == Ok::<Seq<u8>, UriFault>(out@ + t),
                Err(e) => all == Err::<Seq<u8>, UriFault>(e),
            },
        decreases b@.len() - i,
    {
        let ghost rest = b@.skip(i as int);
        let ghost before = out@;
        if b[i] == 37 {
            if b.len() - i < 3 {
                let left: &[u8] = slice_subrange(b, i, b.len());
                proof {
                    lemma_text_from(s@, i as int);
                    assert(left@ =~= rest);
                }
                return match read_utf8(left) {
                    Ok(t) => Err(UriError::CutEscape(t)),
                    Err(t) => Err(UriError::NotUtf8(t)),
                };
            }
            assert(rest[1] == b@[i + 1] && rest[2] == b@[i + 2]);
            assert(rest.subrange(1, 3) =~= b@.subrange(i + 1, i + 3));
            let lo: u8 = match hex_nibble(b[i + 2]) {
                Some(v) => v,
                None => {
                    return Err(bad_escape(slice_subrange(b, i + 1, i + 3)));
                },
            };
            let v: u8 = if b[i + 1] == 43 {
                lo
            } else {
                match hex_nibble(b[i + 1]) {
                    Some(hi) => hi * 16 + lo,
                    None => {
                        return Err(bad_escape(slice_subrange(b, i + 1, i + 3)));
                    },
                }
            };
            out.push(v);
            proof {
                assert(rest.skip(3) =~= b@.skip(i + 3));
                if unescaped(rest.skip(3)) is Ok {
                    let t = unescaped(rest.skip(3))->Ok_0;
                    assert(before + (seq![v] + t) =~= out@ + t);
                }
            }
            i = i + 3;
        } else {
            out.push(b[i]);
            proof {
                assert(rest.skip(1) =~= b@.skip(i + 1));
                if unescaped(rest.skip(1)) is Ok {
                    let t = unescaped(rest.skip(1))->Ok_0;
                    assert(before + (seq![rest[0]] + t) =~= out@ + t);
                }
            }
            i = i + 1;
        }
    }
    assert(b@.skip(i as int) =~= seq![]);
    assert(out@ + seq![] =~= out@);
    match read_utf8(out.as_slice()) {
        Ok(t) => Ok(t),
        Err(t) => Err(UriError::NotUtf8(t)),
    }
}

/// The name of the camouflage site among the first `n` parameters: that of the last one that gives
/// it; empty where none does.
pub open spec fn sni_of(p: Seq<Seq<char>>, n: int) -> Result<Seq<char>, UriFault>
    decreases n,
{
    if n <= 0 {
        Ok(seq![])
    } else {
        match sni_of(p, n - 1) {
            Err(e) => Err(e),
            Ok(prev) => match cut(p[n - 1], '=') {
                Some(kv) => if kv.0 == "sni"@ {
                    percent_text(kv.1)
                } else {
                    Ok(prev)
                },
                None => Ok(prev),
            },
        }
    }
}

/// A node as a value.
#[verifier::ext_equal]
pub struct NodeView {
    pub password: Seq<char>,
    pub host: Seq<char>,
    pub port: u16,
    pub sni: Seq<char>,
}

impl View for NodeUri {
    type V = NodeView;

    open spec fn view(&self) -> NodeView {
        NodeView { password: self.password@, host: self.host@, port: self.port, sni: self.sni@ }
    }
}

/// The node that is written as a server with its parameters, and an escaped password.
pub open spec fn node_of(pwd: Seq<char>, tail: Seq<char>) -> Result<NodeView, UriFault> {
    let hq = match cut(tail, '?') {
        Some(x) => x,
        None => (tail, seq![]),
    };
    let c = last_index(hq.0, ':');
    if c < 0 {
        Err(UriFault::NoPort)
    } else {
        match uint_text(hq.0.skip(c + 1), 65535) {
            None => Err(UriFault::BadPort(hq.0.skip(c + 1))),
            Some(port) => if port == 0 {
                Err(UriFault::PortZero)
            } else {
                let params = pieces(hq.1, '&');
                match sni_of(params, params.len() as int) {
                    Err(e) => Err(e),
                    Ok(sni) => match percent_text(pwd) {
                        Err(e) => Err(e),
                        Ok(password) => if password.len() == 0 {
                            Err(UriFault::EmptyPassword)
                        } else if c == 0 {
                            Err(UriFault::EmptyHost)
                        } else if sni.len() == 0 {
                            Err(UriFault::NoSni)
                        } else {
                            Ok(NodeView { password, host: hq.0.take(c), port: port as u16, sni })
                        },
                    },
                }
            },
        }
    }
}

/// The node that a text stands for.
pub open spec fn node_text(s: Seq<char>) -> Result<NodeView, UriFault> {
    let t = trimmed(s);
    if !has_prefix(t, "mirage://"@) {
        Err(UriFault::Scheme)
    } else {
        let rest = t.skip("mirage://"@.len() as int);
        let at = last_index(rest, '@');
        if at < 0 {
            Err(UriFault::NoAt)
        } else {
            node_of(rest.take(at), rest.skip(at + 1))
        }
    }
}

fn find_sni(query: &[char]) -> (r: Result<String, UriError>)
    ensures
        text_result(r) == sni_of(pieces(query@, '&'), pieces(query@, '&').len() as int),
{
    let parts: Vec<Vec<char>> = split_char(query, '&');
    let ghost p = pieces(query@, '&');
    let key: Vec<char> = chars_of("sni");
    let mut sni: String = "".to_owned();
    proof {
        reveal_strlit("");
        assert(sni@ =~= seq![]);
        assert(forall|k: int| 0 <= k < parts@.len() ==> (#[trigger] parts@[k])@ == p[k]);
    }
    let mut i: usize = 0;
    while i < parts.len()
        invariant
            i <= parts@.len(),
            parts@.len() == p.len(),
            forall|k: int| 0 <= k < parts@.len() ==> (#[trigger] parts@[k])@ == p[k],
            p == pieces(query@, '&'),
            key@ == "sni"@,
            sni_of(p, i as int) == Ok::<Seq<char>, UriFault>(sni@),
        decreases parts@.len() - i,
    {
        assert(parts@[i as int]@ == p[i as int]);
        match cut_at(parts[i].as_slice(), '=') {
            Some(kv) => {
                if same_chars(kv.0.as_slice(), key.as_slice()) {
                    let v: String = string_of(kv.1.as_slice());
                    match percent_decode(v.as_str()) {
                        Ok(t) => {
                            sni = t;
                        },
                        Err(e) => {
                            proof {
                                lemma_sni_stops(p, i + 1, p.len() as int);
                            }
                            return Err(e);
                        },
                    }
                }
            },
            None => {},
        }
        i = i + 1;
    }
    Ok(sni)
}

proof fn lemma_sni_stops(p: Seq<Seq<char>>, m: int, n: int)
    requires
        m <= n,
        sni_of(p, m) is Err,
    ensures
        sni_of(p, n) == sni_of(p, m),
    decreases n,
{
    if m < n && n > 0 {
        lemma_sni_stops(p, m, n - 1);
    }
}

fn blank(s: &String) -> (r: bool)
    ensures
        r == (s@.len() == 0),
{
    let c: Vec<char> = chars_of(s.as_str());
    c.len() == 0
}

impl NodeUri {
    /// Reads a node.
    pub fn parse(uri: &str) -> (r: Result<NodeUri, UriError>)
        ensures
            match r {
                Ok(n) => node_text(uri@) == Ok::<NodeView, UriFault>(n@),
                Err(e) => node_text(uri@) == Err::<NodeView, UriFault>(e@),
            },
    {
        let c: Vec<char> = chars_of(uri);
        let t: &[char] = trim(c.as_slice());
        if !starts_with(t, "mirage://") {
            return Err(UriError::Scheme);
        }
        proof {
            reveal_strlit("mirage://");
        }
        let rest: Vec<char> = copy_chars(t, 9, t.len());
        assert(rest@ =~= t@.skip(9));
        proof {
            lemma_last_index_bounds(rest@, '@');
        }
        let at: usize = match rfind_char(rest.as_slice(), '@') {
            Some(i) => i,
            None => {
                return Err(UriError::NoAt);
            },
        };
        let pwd: Vec<char> = copy_chars(rest.as_slice(), 0, at);
        let tail: Vec<char> = copy_chars(rest.as_slice(), at + 1, rest.len());
        assert(pwd@ =~= rest@.take(at as int));
        assert(tail@ =~= rest@.skip(at + 1));
        let server: Vec<char>;
        let query: Vec<char>;
        match cut_at(tail.as_slice(), '?') {
            Some(x) => {
                server = x.0;
                query = x.1;
            },
            None => {
                server = copy_chars(tail.as_slice(), 0, tail.len());
                query = Vec::new();
                assert(server@ =~= tail@);
                assert(query@ =~= seq![]);
            },
        }
        proof {
            lemma_last_index_bounds(server@, ':');
        }
        let colon: usize = match rfind_char(server.as_slice(), ':') {
            Some(i) => i,
            None => {
                return Err(UriError::NoPort);
            },
        };
        let digits: Vec<char> = copy_chars(server.as_slice(), colon + 1, server.len());
        assert(digits@ =~= server@.skip(colon + 1));
        let port: u16 = match parse_uint(digits.as_slice(), 65535) {
            Some(p) => p as u16,
            None => {
                return Err(UriError::BadPort(string_of(digits.as_slice())));
            },
        };
        if port == 0 {
            return Err(UriError::PortZero);
        }
        let sni: String = match find_sni(query.as_slice()) {
            Ok(s) => s,
            Err(e) => {
                return Err(e);
            },
        };
        let enc: String = string_of(pwd.as_slice());
        let password: String = match percent_decode(enc.as_str()) {
            Ok(s) => s,
            Err(e) => {
                return Err(e);
            },
        };
        if blank(&password) {
            return Err(UriError::EmptyPassword);
        }
        if colon == 0 {
            return Err(UriError::EmptyHost);
        }
        if blank(&sni) {
            return Err(UriError::NoSni);
        }
        let host: Vec<char> = copy_chars(server.as_slice(), 0, colon);
        assert(host@ =~= server@.take(colon as int));
        Ok(NodeUri { password, host: string_of(host.as_slice()), port, sni })
    }
}

/// A text without a percent sign stands for itself: a plus sign is a plus sign.
pub proof fn law_plain_text_kept(s: Seq<char>)
    requires
        !encode_utf8(s).contains(37),
    ensures
        percent_text(s) == Ok::<Seq<char>, UriFault>(s),
{
    lemma_plain_bytes(encode_utf8(s));
    vstd::utf8::encode_utf8_valid_utf8(s);
    vstd::utf8::encode_utf8_decode_utf8(s);
}

proof fn lemma_plain_bytes(b: Seq<u8>)
    requires
        !b.contains(37),
    ensures
        unescaped(b) == Ok::<Seq<u8>, UriFault>(b),
    decreases b.len(),
{
    if b.len() > 0 {
        assert(b[0] != 37);
        assert forall|i: int| 0 <= i < b.skip(1).len() implies b.skip(1)[i] != 37 by {
            assert(b.contains(b[i + 1]));
        }
        lemma_plain_bytes(b.skip(1));
        assert(seq![b[0]] + b.skip(1) =~= b);
    } else {
        assert(b =~= seq![]);
    }
}

/// The hexadecimal digit of a value below sixteen, with capital letters.
pub open spec fn hex_digit_of(v: int) -> u8 {
    if v < 10 {
        (48 + v) as u8
    } else {
        (55 + v) as u8
    }
}

/// Bytes with those escaped that are marked, and every percent sign.
pub open spec fn with_escapes(b: Seq<u8>, marked: Seq<bool>) -> Seq<u8>
    decreases b.len(),
{
    if b.len() == 0 {
        seq![]
    } else if marked[0] || b[0] == 37 {
        seq![37u8, hex_digit_of(b[0] as int / 16), hex_digit_of(b[0] as int % 16)] + with_escapes(
            b.drop_first(),
            marked.drop_first(),
        )
    } else {
        seq![b[0]] + with_escapes(b.drop_first(), marked.drop_first())
    }
}

/// Whatever bytes of a text are escaped, it is read back as it was.
pub proof fn law_escapes_read_back(b: Seq<u8>, marked: Seq<bool>)
    ensures
        unescaped(with_escapes(b, marked)) == Ok::<Seq<u8>, UriFault>(b),
    decreases b.len(),
{
    if b.len() == 0 {
        assert(b =~= seq![]);
    } else {
        let rest = with_escapes(b.drop_first(), marked.drop_first());
        let e = with_escapes(b, marked);
        law_escapes_read_back(b.drop_first(), marked.drop_first());
        assert(seq![b[0]] + b.drop_first() =~= b);
        if marked[0] || b[0] == 37 {
            assert(e.skip(3) =~= rest);
            lemma_hex_digits(b[0]);
        } else {
            assert(e.skip(1) =~= rest);
        }
    }
}

proof fn lemma_hex_digits(x: u8)
    ensures
        escaped(hex_digit_of(x as int / 16), hex_digit_of(x as int % 16)) == Some(x),
{
    let hi = x as int / 16;
    let lo = x as int % 16;
    assert(nibble(hex_digit_of(hi)) == Some(hi));
    assert(nibble(hex_digit_of(lo)) == Some(lo));
    assert(hex_digit_of(hi) != 43);
    assert(hi * 16 + lo == x);
}

/// Small letters are as good as capital ones behind a percent sign, and a plus sign there counts as
/// nothing.
pub proof fn law_escape_letters(a: u8, b: u8)
    ensures
        65 <= b <= 70 ==> escaped(a, (b + 32) as u8) == escaped(a, b),
        65 <= a <= 70 ==> escaped((a + 32) as u8, b) == escaped(a, b),
        escaped(43, b) == escaped(48, b),
{
}

/// An escape that is cut off is a fault, and so is one with anything else than hexadecimal digits.
pub proof fn law_bad_escapes(front: Seq<u8>, two: Seq<u8>, rest: Seq<u8>)
    requires
        !front.contains(37),
    ensures
        two.len() < 2 && rest.len() == 0 ==> (unescaped(front + (seq![37u8] + two + rest)) matches Err(UriFault::CutEscape(_))),
        two.len() == 2 && !(48 <= two[1] <= 57 || 65 <= two[1] <= 70 || 97 <= two[1] <= 102) ==> unescaped(
            front + (seq![37u8] + two + rest),
        ) == Err::<Seq<u8>, UriFault>(
            if valid_utf8(two) {
                UriFault::BadEscape(decode_utf8(two))
            } else {
                UriFault::NotUtf8(utf8_fault(two))
            },
        ),
    decreases front.len(),
{
    let s = front + (seq![37u8] + two + rest);
    if front.len() > 0 {
        let f = front.drop_first();
        assert(s.skip(1) =~= f + (seq![37u8] + two + rest));
        assert(s[0] == front[0]);
        assert(front.contains(front[0]));
        assert forall|x: u8| f.contains(x) implies front.contains(x) by {
            assert(front[f.index_of(x) + 1] == x);
        }
        law_bad_escapes(f, two, rest);
    } else {
        assert(s[0] == 37);
        if two.len() == 2 {
            assert(s.subrange(1, 3) =~= two);
        }
    }
}

/// Parameters as they stand behind the question mark.
pub open spec fn joined_params(p: Seq<Seq<char>>) -> Seq<char>
    decreases p.len(),
{
    if p.len() == 0 {
        seq![]
    } else if p.len() == 1 {
        p[0]
    } else {
        p[0] + seq!['&'] + joined_params(p.drop_first())
    }
}

proof fn lemma_params_split(p: Seq<Seq<char>>)
    requires
        p.len() > 0,
        forall|i: int| 0 <= i < p.len() ==> !(#[trigger] p[i]).contains('&'),
    ensures
        pieces(joined_params(p), '&') == p,
    decreases p.len(),
{
    let s = joined_params(p);
    let a = p[0];
    assert(!a.contains('&'));
    assert forall|j: int| 0 <= j < a.len() implies s[j] != '&' by {
        assert(s[j] == a[j]);
        assert(a.contains(a[j]));
    }
    crate::seqs::lemma_until_is(s, '&', a.len() as int);
    if p.len() == 1 {
        assert(p =~= seq![a]);
    } else {
        let rest = p.drop_first();
        assert forall|i: int| 0 <= i < rest.len() implies !(#[trigger] rest[i]).contains('&') by {
            assert(rest[i] == p[i + 1]);
        }
        lemma_params_split(rest);
        assert(s.take(a.len() as int) =~= a);
        assert(s.skip(a.len() as int + 1) =~= joined_params(rest));
        assert(seq![a] + rest =~= p);
    }
}

/// A parameter with another name than that of the site.
pub open spec fn other_param(p: Seq<char>) -> bool {
    !p.contains('&') && match cut(p, '=') {
        Some(kv) => kv.0 != "sni"@,
        None => true,
    }
}

/// The site is that of the last parameter that names it, as long as none is malformed; parameters of
/// other names make no difference.
pub proof fn law_last_site_counts(p: Seq<Seq<char>>, n: int, v: Seq<char>, other: Seq<char>)
    requires
        0 <= n == p.len(),
        other_param(other),
    ensures
        sni_of(p, n) is Ok ==> sni_of(p.push("sni="@ + v), n + 1) == percent_text(v),
        sni_of(p, n) matches Err(e) ==> sni_of(p.push("sni="@ + v), n + 1) == Err::<Seq<char>, UriFault>(e),
        sni_of(p.push(other), n + 1) == sni_of(p, n),
{
    lemma_sni_prefix(p, p.push("sni="@ + v), n);
    lemma_sni_prefix(p, p.push(other), n);
    lemma_sni_param(v);
}

proof fn lemma_sni_param(v: Seq<char>)
    ensures
        cut("sni="@ + v, '=') == Some(("sni"@, v)),
{
    reveal_strlit("sni=");
    reveal_strlit("sni");
    assert("sni="@ + v =~= "sni"@ + seq!['='] + v);
    law_cut_at_first("sni"@, '=', v);
}

proof fn lemma_sni_prefix(p: Seq<Seq<char>>, q: Seq<Seq<char>>, n: int)
    requires
        0 <= n <= p.len(),
        n <= q.len(),
        forall|i: int| 0 <= i < n ==> #[trigger] p[i] == q[i],
    ensures
        sni_of(p, n) == sni_of(q, n),
    decreases n,
{
    if n > 0 {
        lemma_sni_prefix(p, q, n - 1);
        assert(p[n - 1] == q[n - 1]);
    }
}

proof fn lemma_sni_others(p: Seq<Seq<char>>, k: int, n: int)
    requires
        0 <= k <= n <= p.len(),
        forall|i: int| k <= i < n ==> other_param(#[trigger] p[i]),
    ensures
        sni_of(p, n) == sni_of(p, k),
    decreases n - k,
{
    if k < n {
        lemma_sni_others(p, k, n - 1);
        assert(other_param(p[n - 1]));
    }
}

/// A node is read off its address whatever white space stands around it: the password before the last at
/// sign, the host and the port behind it, and the site among the parameters.
pub proof fn law_node_read(
    pad: (Seq<char>, Seq<char>),
    password: Seq<char>,
    host: Seq<char>,
    port: u16,
    before: Seq<Seq<char>>,
    site: Seq<char>,
    after: Seq<Seq<char>>,
)
    requires
        forall|i: int| 0 <= i < pad.0.len() ==> is_white(#[trigger] pad.0[i]),
        forall|i: int| 0 <= i < pad.1.len() ==> is_white(#[trigger] pad.1[i]),
        password.len() > 0 && !encode_utf8(password).contains(37),
        host.len() > 0 && !host.contains('@') && !host.contains('?'),
        port > 0,
        forall|i: int| 0 <= i < before.len() ==> other_param(#[trigger] before[i]),
        forall|i: int| 0 <= i < after.len() ==> other_param(#[trigger] after[i]),
        site.len() > 0 && !site.contains('&') && !encode_utf8(site).contains(37),
        !joined_params(before + seq!["sni="@ + site] + after).contains('@'),
        !is_white(joined_params(before + seq!["sni="@ + site] + after).last()),
    ensures
        node_text(
            pad.0 + ("mirage://"@ + password + seq!['@'] + (host + seq![':'] + decimal(port as nat) + seq!['?']
                + joined_params(before + seq!["sni="@ + site] + after))) + pad.1,
        ) == Ok::<NodeView, UriFault>(NodeView { password, host, port, sni: site }),
{
    reveal_strlit("mirage://");
    reveal_strlit("sni=");
    let ps = before + seq!["sni="@ + site] + after;
    let q = joined_params(ps);
    let server = host + seq![':'] + decimal(port as nat);
    let tail = server + seq!['?'] + q;
    let t = "mirage://"@ + password + seq!['@'] + tail;
    let k = before.len() as int;
    assert forall|i: int| 0 <= i < ps.len() implies !(#[trigger] ps[i]).contains('&') by {
        if i < k {
            assert(ps[i] == before[i]);
        } else if i == k {
            let x = "sni="@ + site;
            assert forall|j: int| 0 <= j < x.len() implies x[j] != '&' by {
                if j >= 4 {
                    assert(x[j] == site[j - 4]);
                    assert(site.contains(site[j - 4]));
                }
            }
        } else {
            assert(ps[i] == after[i - k - 1]);
        }
    }
    lemma_params_split(ps);
    lemma_query_nonempty(ps, k);
    assert(t[0] == 'm');
    assert(t.last() == q.last());
    law_white_taken_off(pad.0, t, pad.1);
    assert(t.take(9) =~= "mirage://"@);
    let rest = t.skip(9);
    let n = password.len() as int;
    assert(rest =~= password + seq!['@'] + tail);
    lemma_decimal_value(port as nat);
    let d = decimal(port as nat);
    assert forall|j: int| n < j < rest.len() implies rest[j] != '@' by {
        let i = j - n - 1;
        assert(rest[j] == tail[i]);
        if i < host.len() {
            assert(tail[i] == host[i]);
            assert(host.contains(host[i]));
        } else if host.len() < i < server.len() {
            assert(tail[i] == d[i - host.len() - 1]);
            assert(is_digit(d[i - host.len() - 1]));
        } else if i > server.len() {
            assert(tail[i] == q[i - server.len() - 1]);
            assert(q.contains(q[i - server.len() - 1]));
        }
    }
    lemma_last_index_is(rest, '@', n);
    assert(rest.take(n) =~= password);
    assert(rest.skip(n + 1) =~= tail);
    assert forall|j: int| 0 <= j < server.len() implies server[j] != '?' by {
        if j < host.len() {
            assert(server[j] == host[j]);
            assert(host.contains(host[j]));
        } else if j > host.len() {
            assert(server[j] == d[j - host.len() - 1]);
            assert(is_digit(d[j - host.len() - 1]));
        }
    }
    law_cut_at_first(server, '?', q);
    lemma_colon_port(host, port as nat);
    law_decimal_roundtrip(port as nat, 65535);
    law_plain_text_kept(password);
    law_plain_text_kept(site);
    assert forall|i: int| 0 <= i < k implies other_param(#[trigger] ps[i]) by {
        assert(ps[i] == before[i]);
    }
    lemma_sni_others(ps, 0, k);
    lemma_sni_param(site);
    assert(ps[k] == "sni="@ + site);
    assert forall|i: int| k + 1 <= i < ps.len() implies other_param(#[trigger] ps[i]) by {
        assert(ps[i] == after[i - k - 1]);
    }
    lemma_sni_others(ps, k + 1, ps.len() as int);
}

proof fn lemma_query_nonempty(p: Seq<Seq<char>>, k: int)
    requires
        0 <= k < p.len(),
        p[k].len() > 0,
    ensures
        joined_params(p).len() > 0,
    decreases p.len(),
{
    if p.len() > 1 && k > 0 {
        lemma_query_nonempty(p.drop_first(), k - 1);
    }
}

/// What is no node is refused, each for its own reason: another scheme, no at sign, no port, no number
/// up to 65535 for a port, and the port zero.
pub proof fn law_uri_faults(s: Seq<char>, password: Seq<char>, host: Seq<char>, port: Seq<char>)
    requires
        s.len() > 0 && !is_white(s[0]) && !is_white(s.last()),
    ensures
        s.len() < 9 || s.take(9) != "mirage://"@ ==> node_text(s) == Err::<NodeView, UriFault>(UriFault::Scheme),
        s.len() >= 9 && s.take(9) == "mirage://"@ && !s.skip(9).contains('@') ==> node_text(s) == Err::<NodeView, UriFault>(
            UriFault::NoAt,
        ),
        !host.contains(':') && !host.contains('?') ==> node_of(password, host) == Err::<NodeView, UriFault>(UriFault::NoPort),
        !host.contains('?') && !port.contains(':') && !port.contains('?') && uint_text(port, 65535) is None ==> node_of(
            password,
            host + seq![':'] + port,
        ) == Err::<NodeView, UriFault>(UriFault::BadPort(port)),
        !host.contains('?') && !port.contains(':') && !port.contains('?') && uint_text(port, 65535) == Some(0int) ==> node_of(
            password,
            host + seq![':'] + port,
        ) == Err::<NodeView, UriFault>(UriFault::PortZero),
{
    reveal_strlit("mirage://");
    law_trimmed_kept(s);
    if s.len() >= 9 && s.take(9) == "mirage://"@ && !s.skip(9).contains('@') {
        let r = s.skip(9);
        lemma_last_index_bounds(r, '@');
        if last_index(r, '@') >= 0 {
            assert(r.contains(r[last_index(r, '@')]));
        }
    }
    if !host.contains(':') && !host.contains('?') {
        law_cut_at_first(host, '?', seq![]);
        lemma_last_index_bounds(host, ':');
        if last_index(host, ':') >= 0 {
            assert(host.contains(host[last_index(host, ':')]));
        }
    }
    if !host.contains('?') && !port.contains(':') && !port.contains('?') {
        let t = host + seq![':'] + port;
        let n = host.len() as int;
        assert forall|j: int| 0 <= j < t.len() implies t[j] != '?' by {
            if j < n {
                assert(t[j] == host[j]);
                assert(host.contains(host[j]));
            } else if j > n {
                assert(t[j] == port[j - n - 1]);
                assert(port.contains(port[j - n - 1]));
            }
        }
        law_cut_at_first(t, '?', seq![]);
        assert forall|j: int| n < j < t.len() implies t[j] != ':' by {
            assert(t[j] == port[j - n - 1]);
            assert(port.contains(port[j - n - 1]));
        }
        lemma_last_index_is(t, ':', n);
        assert(t.skip(n + 1) =~= port);
    }
}

} // verus!
