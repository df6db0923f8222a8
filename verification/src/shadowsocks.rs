//! Shadowsocks: cipher methods, key derivation, the sealed chunk stream in both directions, and the
//! headers of the 2022 edition.

use md5::Digest;
use vstd::prelude::*;
use vstd::slice::slice_subrange;
use vstd::utf8::encode_utf8;

use crate::b64::{base64_decoded, decode_standard, decoded_view};
use crate::chance::{random_bytes, random_usize, secure_bytes};
use crate::frames::{addr_bytes, name_bytes, push_addr, ATYP_NAME};
use crate::ip::{ipv4_text, ipv6_text, parse_ipv4, parse_ipv6, SocketAddr, SocketView};
use crate::seqs::last_index;
use crate::text::{
    chars_of, debug_text, decimal, eq_ignore_case, find_char, parse_uint, push_chars, push_decimal, push_text,
    quoted, rfind_char, same_ignore_case, string_of, trim, trimmed, uint_text,
};
use crate::user_limits::current_unix_time;
use crate::wire::{
    be16, be64, copy_range, lemma_be16_at, push_bytes, push_u16, push_u64, read_u16, read_u64,
    same_bytes, u16_at, u64_at,
};

verus! {

/// The longest chunk of the stream.
pub const MAX_CHUNK: usize = 0x3fff;

/// The length of the tag that sealing appends.
pub const TAG_LEN: usize = 16;

/// The context of the session keys of the 2022 edition.
pub const SS2022_KDF_CONTEXT: &'static str = "shadowsocks 2022 session subkey";

/// The type byte of a client's header.
pub const SS2022_TYPE_CLIENT: u8 = 0;

/// The type byte of a server's header.
pub const SS2022_TYPE_SERVER: u8 = 1;

/// How far the clocks of both ends may differ, in seconds.
pub const SS2022_TS_TOLERANCE: u64 = 30;

/// The most bytes of padding in a request.
pub const MAX_PADDING: usize = 64;

/// An authenticated cipher.
#[derive(Clone, Copy, PartialEq, Eq, Structural, Debug)]
pub enum Aead {
    Aes128Gcm,
    Aes256Gcm,
    Chacha20Poly1305,
}

/// A cipher method: the first three belong to the older edition, the others to the 2022 edition.
#[derive(Clone, Copy, PartialEq, Eq, Structural, Debug)]
pub enum Method {
    Aes128Gcm,
    Aes256Gcm,
    Chacha20IetfPoly1305,
    Ss2022Aes128Gcm,
    Ss2022Aes256Gcm,
    Ss2022Chacha20Poly1305,
}

/// Why something failed.
#[derive(Debug)]
pub enum SsError {
    /// The method of this name is not supported.
    UnsupportedMethod(String),
    /// The key is not base64: what the decoder says of it.
    KeyNotBase64(String),
    /// The key has the first length and should have the second.
    KeyLength(usize, usize),
    /// This target has no port.
    MissingPort(String),
    /// This port is not a number from 0 to 65535.
    BadPort(String),
    /// This host is empty or longer than 255 bytes.
    BadHost(String),
    /// The variable header has this many bytes, which is too long.
    HeaderTooLong(usize),
    /// The fixed header has this many bytes, which is wrong.
    HeaderLength(usize),
    /// The header has this type, which is wrong.
    HeaderType(u8),
    /// The first clock, the peer's, is too far from the second.
    Clock(u64, u64),
    /// The salt of the request was not echoed.
    Salt,
    /// A chunk of this length is not allowed.
    ChunkLength(usize),
    /// Sealing failed.
    Seal,
    /// Opening failed.
    Open,
    /// The stream ended in the middle of a chunk.
    UnexpectedEof,
    /// There was no salt to be had.
    NoSalt,
}

/// The length of the keys of a cipher.
pub open spec fn aead_key_len(a: Aead) -> nat {
    match a {
        Aead::Aes128Gcm => 16,
        _ => 32,
    }
}

/// What the authenticated cipher of `ring` makes of a plaintext without associated data: the
/// ciphertext and the tag.
pub uninterp spec fn aead_sealed(a: Aead, key: Seq<u8>, nonce: Seq<u8>, plain: Seq<u8>) -> Seq<u8>;

/// What the authenticated cipher of `ring` makes of a ciphertext and tag without associated data;
/// `None` where the tag does not fit.
pub uninterp spec fn aead_opened(a: Aead, key: Seq<u8>, nonce: Seq<u8>, sealed: Seq<u8>) -> Option<Seq<u8>>;

/// Calls `LessSafeKey::seal_in_place_append_tag` of `ring`. It succeeds on any plaintext up to the
/// stated length, appends a tag of sixteen bytes, and the result opens to the plaintext under the
/// same key and nonce.
#[verifier::external_body]
fn ring_seal(a: Aead, key: &[u8], nonce: &[u8; 12], plain: &[u8]) -> (r: Option<Vec<u8>>)
    requires
        key@.len() == aead_key_len(a),
    ensures
        plain@.len() <= 0x1000_0000 ==> r is Some,
        r matches Some(c) ==> c@ == aead_sealed(a, key@, nonce@, plain@) && c@.len() == plain@.len() + TAG_LEN
            && aead_opened(a, key@, nonce@, c@) == Some(plain@),
{
    let alg = match a {
        Aead::Aes128Gcm => &ring::aead::AES_128_GCM,
        Aead::Aes256Gcm => &ring::aead::AES_256_GCM,
        Aead::Chacha20Poly1305 => &ring::aead::CHACHA20_POLY1305,
    };
    let k = ring::aead::LessSafeKey::new(ring::aead::UnboundKey::new(alg, key).ok()?);
    let n = ring::aead::Nonce::assume_unique_for_key(*nonce);
    let mut buf = plain.to_vec();
    k.seal_in_place_append_tag(n, ring::aead::Aad::empty(), &mut buf).ok()?;
    Some(buf)
}

/// Calls `LessSafeKey::open_in_place` of `ring`. What it returns is shorter than its input by the
/// tag of sixteen bytes.
#[verifier::external_body]
fn ring_open(a: Aead, key: &[u8], nonce: &[u8; 12], sealed: &[u8]) -> (r: Option<Vec<u8>>)
    requires
        key@.len() == aead_key_len(a),
    ensures
        match r {
            Some(p) => aead_opened(a, key@, nonce@, sealed@) == Some(p@) && p@.len() + TAG_LEN == sealed@.len(),
            None => aead_opened(a, key@, nonce@, sealed@) is None,
        },
{
    let alg = match a {
        Aead::Aes128Gcm => &ring::aead::AES_128_GCM,
        Aead::Aes256Gcm => &ring::aead::AES_256_GCM,
        Aead::Chacha20Poly1305 => &ring::aead::CHACHA20_POLY1305,
    };
    let k = ring::aead::LessSafeKey::new(ring::aead::UnboundKey::new(alg, key).ok()?);
    let n = ring::aead::Nonce::assume_unique_for_key(*nonce);
    let mut buf = sealed.to_vec();
    let plain = k.open_in_place(n, ring::aead::Aad::empty(), &mut buf).ok()?;
    Some(plain.to_vec())
}

/// The output length of a key derivation.
pub struct Len(pub usize);

impl ring::hkdf::KeyType for Len {
    fn len(&self) -> usize {
        self.0
    }
}

/// The output of HKDF with SHA-1: salt, key material, information and length.
pub uninterp spec fn hkdf_sha1(salt: Seq<u8>, ikm: Seq<u8>, info: Seq<u8>, len: nat) -> Seq<u8>;

/// Calls `Salt::extract`, `Prk::expand` and `Okm::fill` of `ring` with HMAC-SHA-1. The output has
/// the length asked for; lengths above 255 times the digest are refused by `expand`.
#[verifier::external_body]
fn ring_hkdf_sha1(salt: &[u8], ikm: &[u8], info: &[u8], len: usize) -> (r: Vec<u8>)
    requires
        len <= 5100,
    ensures
        r@ == hkdf_sha1(salt@, ikm@, info@, len as nat),
        r@.len() == len,
{
    let prk = ring::hkdf::Salt::new(ring::hkdf::HKDF_SHA1_FOR_LEGACY_USE_ONLY, salt).extract(ikm);
    let mut out = vec![0u8; len];
    prk.expand(&[info], Len(len)).unwrap().fill(&mut out).unwrap();
    out
}

/// The MD5 digest of a byte string.
pub uninterp spec fn md5_digest(data: Seq<u8>) -> Seq<u8>;

/// Calls `Md5::update` on both parts, one behind the other, and `Md5::finalize` of `md-5`. A digest
/// has sixteen bytes.
#[verifier::external_body]
fn md5_of(a: &[u8], b: &[u8]) -> (r: Vec<u8>)
    ensures
        r@ == md5_digest(a@ + b@),
        r@.len() == 16,
{
    let mut h = md5::Md5::new();
    h.update(a);
    h.update(b);
    h.finalize().to_vec()
}

/// The output of the key derivation mode of BLAKE3: context, key material and length.
pub uninterp spec fn blake3_kdf(context: Seq<char>, material: Seq<u8>, len: nat) -> Seq<u8>;

/// Calls `Hasher::new_derive_key`, `Hasher::update` on both parts, one behind the other, and
/// `Hasher::finalize_xof` of `blake3`, and fills the length asked for.
#[verifier::external_body]
fn blake3_derive(context: &str, a: &[u8], b: &[u8], len: usize) -> (r: Vec<u8>)
    ensures
        r@ == blake3_kdf(context@, a@ + b@, len as nat),
        r@.len() == len,
{
    let mut hasher = blake3::Hasher::new_derive_key(context);
    hasher.update(a);
    hasher.update(b);
    let mut out = vec![0u8; len];
    hasher.finalize_xof().fill(&mut out);
    out
}

/// The method of a name, whatever the case of its letters.
pub open spec fn method_text(s: Seq<char>) -> Option<Method> {
    if same_ignore_case(s, "aes-128-gcm"@) {
        Some(Method::Aes128Gcm)
    } else if same_ignore_case(s, "aes-256-gcm"@) {
        Some(Method::Aes256Gcm)
    } else if same_ignore_case(s, "chacha20-ietf-poly1305"@) || same_ignore_case(s, "chacha20-poly1305"@) {
        Some(Method::Chacha20IetfPoly1305)
    } else if same_ignore_case(s, "2022-blake3-aes-128-gcm"@) {
        Some(Method::Ss2022Aes128Gcm)
    } else if same_ignore_case(s, "2022-blake3-aes-256-gcm"@) {
        Some(Method::Ss2022Aes256Gcm)
    } else if same_ignore_case(s, "2022-blake3-chacha20-poly1305"@) {
        Some(Method::Ss2022Chacha20Poly1305)
    } else {
        None
    }
}

fn is_name(s: &[char], name: &str) -> (r: bool)
    ensures
        r == same_ignore_case(s@, name@),
{
    let n: Vec<char> = chars_of(name);
    eq_ignore_case(s, n.as_slice())
}

/// The lower-case form of a text.
pub open spec fn lower_text(s: Seq<char>) -> Seq<char> {
    Seq::new(s.len(), |i: int| crate::text::lower(s[i]))
}

impl Method {
    /// True for the methods of the 2022 edition.
    pub open spec fn edition_2022(self) -> bool {
        self == Method::Ss2022Aes128Gcm || self == Method::Ss2022Aes256Gcm || self == Method::Ss2022Chacha20Poly1305
    }

    /// The length of the keys and salts.
    pub open spec fn key_size(self) -> nat {
        aead_key_len(self.aead())
    }

    /// The cipher of a method.
    pub open spec fn aead(self) -> Aead {
        match self {
            Method::Aes128Gcm => Aead::Aes128Gcm,
            Method::Ss2022Aes128Gcm => Aead::Aes128Gcm,
            Method::Aes256Gcm => Aead::Aes256Gcm,
            Method::Ss2022Aes256Gcm => Aead::Aes256Gcm,
            Method::Chacha20IetfPoly1305 => Aead::Chacha20Poly1305,
            Method::Ss2022Chacha20Poly1305 => Aead::Chacha20Poly1305,
        }
    }

    /// Reads the name of a method. An unknown name is returned in lower case.
    pub fn parse(s: &str) -> (r: Result<Method, SsError>)
        ensures
            match r {
                Ok(m) => method_text(s@) == Some(m),
                Err(e) => method_text(s@) is None && (e matches SsError::UnsupportedMethod(n) && n@ == lower_text(s@)),
            },
    {
        let c: Vec<char> = chars_of(s);
        let c: &[char] = c.as_slice();
        if is_name(c, "aes-128-gcm") {
            return Ok(Method::Aes128Gcm);
        }
        if is_name(c, "aes-256-gcm") {
            return Ok(Method::Aes256Gcm);
        }
        if is_name(c, "chacha20-ietf-poly1305") || is_name(c, "chacha20-poly1305") {
            return Ok(Method::Chacha20IetfPoly1305);
        }
        if is_name(c, "2022-blake3-aes-128-gcm") {
            return Ok(Method::Ss2022Aes128Gcm);
        }
        if is_name(c, "2022-blake3-aes-256-gcm") {
            return Ok(Method::Ss2022Aes256Gcm);
        }
        if is_name(c, "2022-blake3-chacha20-poly1305") {
            return Ok(Method::Ss2022Chacha20Poly1305);
        }
        let mut low: Vec<char> = Vec::new();
        let mut i: usize = 0;
        while i < c.len()
            invariant
                i <= c@.len(),
                low@.len() == i,
                forall|j: int| 0 <= j < i ==> low@[j] == lower_text(c@)[j],
            decreases c@.len() - i,
        {
            low.push(crate::text::to_lower(c[i]));
            i = i + 1;
        }
        assert(low@ =~= lower_text(s@));
        Err(SsError::UnsupportedMethod(string_of(low.as_slice())))
    }

    /// True for the methods of the 2022 edition.
    pub fn is_2022(&self) -> (r: bool)
        ensures
            r == self.edition_2022(),
    {
        match self {
            Method::Ss2022Aes128Gcm => true,
            Method::Ss2022Aes256Gcm => true,
            Method::Ss2022Chacha20Poly1305 => true,
            _ => false,
        }
    }

    /// The length of the keys and salts.
    pub fn key_len(&self) -> (r: usize)
        ensures
            r == self.key_size(),
    {
        match self.algorithm() {
            Aead::Aes128Gcm => 16,
            _ => 32,
        }
    }

    /// The cipher of a method.
    pub fn algorithm(&self) -> (r: Aead)
        ensures
            r == self.aead(),
    {
        match self {
            Method::Aes128Gcm => Aead::Aes128Gcm,
            Method::Ss2022Aes128Gcm => Aead::Aes128Gcm,
            Method::Aes256Gcm => Aead::Aes256Gcm,
            Method::Ss2022Aes256Gcm => Aead::Aes256Gcm,
            Method::Chacha20IetfPoly1305 => Aead::Chacha20Poly1305,
            Method::Ss2022Chacha20Poly1305 => Aead::Chacha20Poly1305,
        }
    }
}

/// What the user is told of an error.
pub open spec fn error_text(e: SsError) -> Seq<char> {
    match e {
        SsError::UnsupportedMethod(n) => "不支持的 Shadowsocks 加密方式 `"@ + n@
            + "`。支持: aes-128-gcm / aes-256-gcm / chacha20-ietf-poly1305 (SIP004), 2022-blake3-aes-128-gcm / 2022-blake3-aes-256-gcm / 2022-blake3-chacha20-poly1305 (SIP022)。(legacy 流式加密如 aes-256-cfb 无完整性校验、已废弃, 不支持)"@,
        SsError::KeyNotBase64(t) => "SIP022 的 password 必须是 base64 编码的密钥: "@ + t@,
        SsError::KeyLength(got, want) => "SIP022 密钥长度不对: base64 解码后 "@ + decimal(got as nat)
            + " 字节, 该加密方式要求 "@ + decimal(want as nat) + " 字节。(可用 `openssl rand -base64 "@ + decimal(
            want as nat,
        ) + "` 生成)"@,
        SsError::MissingPort(t) => "目标缺少端口: "@ + t@,
        SsError::BadPort(p) => "端口非法: "@ + p@,
        SsError::BadHost(h) => "域名长度非法: "@ + debug_text(h@),
        SsError::HeaderTooLong(n) => "SIP022 变长头过长: "@ + decimal(n as nat) + " 字节"@,
        SsError::HeaderLength(n) => "SIP022 响应定长头长度异常: "@ + decimal(n as nat),
        SsError::HeaderType(t) => "SIP022 响应头类型应为 1, 实际 "@ + decimal(t as nat),
        SsError::Clock(ts, now) => "SIP022 响应时间戳超出 ±30s (对端 "@ + decimal(ts as nat) + ", 本机 "@ + decimal(
            now as nat,
        ) + ") —— 两端时钟不同步, 或是重放的旧响应"@,
        SsError::Salt => "SIP022 响应未回显本次请求的 salt —— 可能是重放的其它会话响应"@,
        SsError::ChunkLength(n) => "shadowsocks chunk 长度非法: "@ + decimal(n as nat),
        SsError::Seal => "shadowsocks 加密失败"@,
        SsError::Open => "shadowsocks 解密失败 (密码或加密方式不匹配?)"@,
        SsError::UnexpectedEof => "unexpected end of file"@,
        SsError::NoSalt => "生成 salt 失败"@,
    }
}

impl SsError {
    /// What the user is told.
    pub fn message(&self) -> (r: String)
        ensures
            r@ == error_text(*self),
    {
        let mut out: Vec<char> = Vec::new();
        match self {
            SsError::UnsupportedMethod(n) => {
                push_text(&mut out, "不支持的 Shadowsocks 加密方式 `");
                push_text(&mut out, n.as_str());
                push_text(
                    &mut out,
                    "`。支持: aes-128-gcm / aes-256-gcm / chacha20-ietf-poly1305 (SIP004), 2022-blake3-aes-128-gcm / 2022-blake3-aes-256-gcm / 2022-blake3-chacha20-poly1305 (SIP022)。(legacy 流式加密如 aes-256-cfb 无完整性校验、已废弃, 不支持)",
                );
            },
            SsError::KeyNotBase64(t) => {
                push_text(&mut out, "SIP022 的 password 必须是 base64 编码的密钥: ");
                push_text(&mut out, t.as_str());
            },
            SsError::KeyLength(got, want) => {
                push_text(&mut out, "SIP022 密钥长度不对: base64 解码后 ");
                push_decimal(&mut out, *got as u64);
                push_text(&mut out, " 字节, 该加密方式要求 ");
                push_decimal(&mut out, *want as u64);
                push_text(&mut out, " 字节。(可用 `openssl rand -base64 ");
                push_decimal(&mut out, *want as u64);
                push_text(&mut out, "` 生成)");
            },
            SsError::MissingPort(t) => {
                push_text(&mut out, "目标缺少端口: ");
                push_text(&mut out, t.as_str());
            },
            SsError::BadPort(p) => {
                push_text(&mut out, "端口非法: ");
                push_text(&mut out, p.as_str());
            },
            SsError::BadHost(h) => {
                push_text(&mut out, "域名长度非法: ");
                push_text(&mut out, quoted(h.as_str()).as_str());
            },
            SsError::HeaderTooLong(n) => {
                push_text(&mut out, "SIP022 变长头过长: ");
                push_decimal(&mut out, *n as u64);
                push_text(&mut out, " 字节");
            },
            SsError::HeaderLength(n) => {
                push_text(&mut out, "SIP022 响应定长头长度异常: ");
                push_decimal(&mut out, *n as u64);
            },
            SsError::HeaderType(t) => {
                push_text(&mut out, "SIP022 响应头类型应为 1, 实际 ");
                push_decimal(&mut out, *t as u64);
            },
            SsError::Clock(ts, now) => {
                push_text(&mut out, "SIP022 响应时间戳超出 ±30s (对端 ");
                push_decimal(&mut out, *ts);
                push_text(&mut out, ", 本机 ");
                push_decimal(&mut out, *now);
                push_text(&mut out, ") —— 两端时钟不同步, 或是重放的旧响应");
            },
            SsError::Salt => push_text(
                &mut out,
                "SIP022 响应未回显本次请求的 salt —— 可能是重放的其它会话响应",
            ),
            SsError::ChunkLength(n) => {
                push_text(&mut out, "shadowsocks chunk 长度非法: ");
                push_decimal(&mut out, *n as u64);
            },
            SsError::Seal => push_text(&mut out, "shadowsocks 加密失败"),
            SsError::Open => push_text(&mut out, "shadowsocks 解密失败 (密码或加密方式不匹配?)"),
            SsError::UnexpectedEof => push_text(&mut out, "unexpected end of file"),
            SsError::NoSalt => push_text(&mut out, "生成 salt 失败"),
        }
        assert(out@ =~= error_text(*self));
        string_of(out.as_slice())
    }
}

/// The session key of the 2022 edition: derived from the shared key followed by the salt.
pub fn ss2022_session_key(psk: &[u8], salt: &[u8], key_len: usize) -> (r: Vec<u8>)
    ensures
        r@ == blake3_kdf(SS2022_KDF_CONTEXT@, psk@ + salt@, key_len as nat),
        r@.len() == key_len,
{
    blake3_derive(SS2022_KDF_CONTEXT, psk, salt, key_len)
}

/// An error is the one for a decoded key that is not one of this length.
pub open spec fn psk_refused(e: SsError, decoded: Result<Seq<u8>, Seq<char>>, key_len: nat) -> bool {
    match decoded {
        Err(t) => e matches SsError::KeyNotBase64(x) && x@ == t,
        Ok(k) => e matches SsError::KeyLength(got, want) && got == k.len() && want == key_len && k.len() != key_len,
    }
}

/// A result is the one for a decoded key: the key where it has this length, or else the reason why it
/// is none.
pub open spec fn psk_judged(r: Result<Vec<u8>, SsError>, decoded: Result<Seq<u8>, Seq<char>>, key_len: nat) -> bool {
    match r {
        Ok(v) => decoded == Ok::<Seq<u8>, Seq<char>>(v@) && v@.len() == key_len,
        Err(e) => psk_refused(e, decoded, key_len),
    }
}

/// Judges a decoded key: it must be base64 and have exactly the length asked for.
pub fn check_psk(decoded: Result<Vec<u8>, String>, key_len: usize) -> (r: Result<Vec<u8>, SsError>)
    ensures
        psk_judged(r, decoded_view(decoded), key_len as nat),
{
    match decoded {
        Err(t) => Err(SsError::KeyNotBase64(t)),
        Ok(k) => {
            if k.len() != key_len {
                Err(SsError::KeyLength(k.len(), key_len))
            } else {
                Ok(k)
            }
        },
    }
}

/// Decodes a shared key of the 2022 edition: base64, white space around it ignored, and exactly the
/// length asked for.
pub fn decode_ss2022_psk(b64: &str, key_len: usize) -> (r: Result<Vec<u8>, SsError>)
    ensures
        psk_judged(r, base64_decoded(trimmed(b64@)), key_len as nat),
{
    let c: Vec<char> = chars_of(b64);
    let t: String = string_of(trim(c.as_slice()));
    check_psk(decode_standard(t.as_str()), key_len)
}

/// The server that an outbound or an upstream connects to.
#[derive(Debug)]
pub struct SsConfig {
    pub server: String,
    pub port: u16,
    pub password: String,
    pub method: Method,
    pub block_udp: bool,
}

/// `server:port`, with brackets around a server name that holds a colon and has none yet.
pub open spec fn server_addr(server: Seq<char>, port: u16) -> Seq<char> {
    if server.contains(':') && server[0] != '[' {
        seq!['['] + server + seq![']', ':'] + decimal(port as nat)
    } else {
        server + seq![':'] + decimal(port as nat)
    }
}

impl SsConfig {
    /// The address of the server.
    pub fn addr(&self) -> (r: String)
        ensures
            r@ == server_addr(self.server@, self.port),
    {
        let s: Vec<char> = chars_of(self.server.as_str());
        let i: usize = find_char(s.as_slice(), ':');
        let mut out: Vec<char> = Vec::new();
        proof {
            crate::seqs::lemma_until_bounds(s@, ':');
            if i < s@.len() {
                assert(s@[i as int] == ':');
            }
        }
        if i < s.len() && s[0] != '[' {
            out.push('[');
            push_chars(&mut out, s.as_slice());
            out.push(']');
        } else {
            push_chars(&mut out, s.as_slice());
        }
        out.push(':');
        push_decimal(&mut out, self.port as u64);
        assert(out@ =~= server_addr(self.server@, self.port));
        string_of(out.as_slice())
    }
}

/// The chain of digests that stretches a password: each digest covers the one before and the
/// password.
pub open spec fn digest_chain(password: Seq<u8>, n: nat) -> Seq<u8>
    decreases n,
{
    if n == 0 {
        seq![]
    } else {
        md5_digest(digest_chain(password, (n - 1) as nat) + password)
    }
}

/// The first `n` digests of the chain, one behind another.
pub open spec fn chain_bytes(password: Seq<u8>, n: nat) -> Seq<u8>
    decreases n,
{
    if n == 0 {
        seq![]
    } else {
        chain_bytes(password, (n - 1) as nat) + digest_chain(password, n)
    }
}

/// Stretches a password to a key: as many digests of the chain as are needed, cut to the length asked
/// for.
pub fn evp_bytes_to_key(password: &str, key_len: usize) -> (r: Vec<u8>)
    requires
        key_len <= usize::MAX - 16,
    ensures
        r@.len() == key_len,
        r@ == chain_bytes(encode_utf8(password@), ((key_len + 15) / 16) as nat).take(key_len as int),
{
    let pw: &[u8] = password.as_bytes();
    let mut out: Vec<u8> = Vec::new();
    let mut prev: Vec<u8> = Vec::new();
    let ghost mut n: nat = 0;
    assert(prev@ =~= seq![]);
    assert(out@ =~= seq![]);
    while out.len() < key_len
        invariant
            key_len <= usize::MAX - 16,
            pw@ == encode_utf8(password@),
            prev@ == digest_chain(pw@, n),
            out@ == chain_bytes(pw@, n),
            out@.len() == 16 * n,
            16 * n < key_len + 16,
        decreases key_len + 16 - out@.len(),
    {
        let next: Vec<u8> = md5_of(prev.as_slice(), pw);
        prev = next;
        push_bytes(&mut out, prev.as_slice());
        proof {
            n = n + 1;
        }
    }
    assert(n == (key_len + 15) / 16);
    out.truncate(key_len);
    out
}

/// A longer key starts with the shorter one.
pub proof fn law_key_prefix(password: Seq<u8>, a: nat, b: nat)
    requires
        a <= b,
    ensures
        chain_bytes(password, a).len() <= chain_bytes(password, b).len(),
        chain_bytes(password, b).take(chain_bytes(password, a).len() as int) == chain_bytes(password, a),
    decreases b,
{
    if a == b {
        assert(chain_bytes(password, b).take(chain_bytes(password, a).len() as int) =~= chain_bytes(password, a));
    } else {
        law_key_prefix(password, a, (b - 1) as nat);
        let x = chain_bytes(password, (b - 1) as nat);
        let n = chain_bytes(password, a).len() as int;
        assert(chain_bytes(password, b).take(n) =~= x.take(n));
    }
}

/// The information that session keys of the older edition are bound to.
pub open spec fn subkey_info() -> Seq<u8> {
    seq![0x73u8, 0x73, 0x2d, 0x73, 0x75, 0x62, 0x6b, 0x65, 0x79]
}

/// The session key of the older edition.
pub fn hkdf_subkey(master: &[u8], salt: &[u8], key_len: usize) -> (r: Vec<u8>)
    requires
        key_len <= 5100,
    ensures
        r@ == hkdf_sha1(salt@, master@, subkey_info(), key_len as nat),
        r@.len() == key_len,
{
    let info: [u8; 9] = [0x73u8, 0x73, 0x2d, 0x73, 0x75, 0x62, 0x6b, 0x65, 0x79];
    assert(info@ =~= subkey_info());
    ring_hkdf_sha1(salt, master, info.as_slice(), key_len)
}

/// The session key of a method.
pub open spec fn session_key(m: Method, master: Seq<u8>, salt: Seq<u8>) -> Seq<u8> {
    if m.edition_2022() {
        blake3_kdf(SS2022_KDF_CONTEXT@, master + salt, m.key_size())
    } else {
        hkdf_sha1(salt, master, subkey_info(), m.key_size())
    }
}

fn derive_session_key(m: Method, master: &[u8], salt: &[u8]) -> (r: Vec<u8>)
    ensures
        r@ == session_key(m, master@, salt@),
        r@.len() == m.key_size(),
{
    if m.is_2022() {
        ss2022_session_key(master, salt, m.key_len())
    } else {
        hkdf_subkey(master, salt, m.key_len())
    }
}

/// The number that little-endian bytes stand for.
pub open spec fn le_value(b: Seq<u8>) -> int
    decreases b.len(),
{
    if b.len() == 0 {
        0
    } else {
        b[0] + 256 * le_value(b.drop_first())
    }
}

/// Two hundred and fifty-six to the power of `n`.
pub open spec fn pow256(n: nat) -> int
    decreases n,
{
    if n == 0 {
        1
    } else {
        256 * pow256((n - 1) as nat)
    }
}

/// Little-endian bytes counted up by one.
pub open spec fn bumped(b: Seq<u8>) -> Seq<u8>
    decreases b.len(),
{
    if b.len() == 0 {
        seq![]
    } else if b[0] == 255 {
        seq![0u8] + bumped(b.drop_first())
    } else {
        seq![(b[0] + 1) as u8] + b.drop_first()
    }
}

/// Counting up adds one to the number that the bytes stand for, and wraps at its end.
pub proof fn law_bumped_counts(b: Seq<u8>)
    ensures
        bumped(b).len() == b.len(),
        0 <= le_value(b) < pow256(b.len()),
        le_value(bumped(b)) == if le_value(b) + 1 == pow256(b.len()) {
            0
        } else {
            le_value(b) + 1
        },
    decreases b.len(),
{
    if b.len() > 0 {
        let t = b.drop_first();
        law_bumped_counts(t);
        assert(pow256(b.len()) == 256 * pow256(t.len()));
        if b[0] == 255 {
            let r = bumped(b);
            assert(r.drop_first() =~= bumped(t));
        } else {
            let r = bumped(b);
            assert(r.drop_first() =~= t);
        }
    }
}

/// The bytes counted up `n` times.
pub open spec fn bumped_by(b: Seq<u8>, n: nat) -> Seq<u8>
    decreases n,
{
    if n == 0 {
        b
    } else {
        bumped(bumped_by(b, (n - 1) as nat))
    }
}

proof fn lemma_bumped_by(b: Seq<u8>, n: nat)
    ensures
        bumped_by(b, n).len() == b.len(),
        le_value(bumped_by(b, n)) == (le_value(b) + n) % pow256(b.len()) as int,
    decreases n,
{
    law_bumped_counts(b);
    if n == 0 {
        vstd::arithmetic::div_mod::lemma_small_mod(le_value(b) as nat, pow256(b.len()) as nat);
    } else {
        let m = (n - 1) as nat;
        let p = pow256(b.len()) as int;
        lemma_bumped_by(b, m);
        law_bumped_counts(bumped_by(b, m));
        let v = le_value(b) + m;
        let q = v / p;
        vstd::arithmetic::div_mod::lemma_fundamental_div_mod(v as int, p);
        vstd::arithmetic::div_mod::lemma_mod_bound(v as int, p);
        if v % p + 1 == p {
            assert(v + 1 == (q + 1) * p + 0) by (nonlinear_arith)
                requires
                    v == p * q + v % p,
                    v % p + 1 == p,
            ;
            vstd::arithmetic::div_mod::lemma_fundamental_div_mod_converse(v + 1, p, q + 1, 0);
        } else {
            assert(v + 1 == q * p + (v % p + 1)) by (nonlinear_arith)
                requires
                    v == p * q + v % p,
            ;
            vstd::arithmetic::div_mod::lemma_fundamental_div_mod_converse(v + 1, p, q, v % p + 1);
        }
    }
}

/// Counting up comes back to no earlier value before it has been through all of them: a key that
/// counts its nonce up with every use has a new nonce for each of the first `256^len` uses.
pub proof fn law_nonces_distinct(b: Seq<u8>, i: nat, j: nat)
    requires
        i < j < pow256(b.len()),
    ensures
        bumped_by(b, i) != bumped_by(b, j),
{
    let p = pow256(b.len()) as int;
    let v = le_value(b) as int;
    lemma_bumped_by(b, i);
    lemma_bumped_by(b, j);
    if (v + i) % p == (v + j) % p {
        vstd::arithmetic::div_mod::lemma_fundamental_div_mod(v + i, p);
        vstd::arithmetic::div_mod::lemma_fundamental_div_mod(v + j, p);
        let a = (v + i) / p;
        let c = (v + j) / p;
        assert(j - i == p * (c - a)) by (nonlinear_arith)
            requires
                v + i == p * a + (v + i) % p,
                v + j == p * c + (v + j) % p,
                (v + i) % p == (v + j) % p,
        ;
        assert(false) by (nonlinear_arith)
            requires
                j - i == p * (c - a),
                0 < j - i < p,
        ;
    }
}

/// A key with the nonce of its next use.
pub struct Crypter {
    pub alg: Aead,
    pub key: Vec<u8>,
    pub nonce: [u8; 12],
}

impl Crypter {
    /// The key fits the cipher.
    pub open spec fn wf(&self) -> bool {
        self.key@.len() == aead_key_len(self.alg)
    }

    /// The first nonce is zero.
    pub fn new(method: Method, subkey: &[u8]) -> (r: Crypter)
        requires
            subkey@.len() == method.key_size(),
        ensures
            r.wf(),
            r.alg == method.aead(),
            r.key@ == subkey@,
            r.nonce@ == Seq::new(12, |i: int| 0u8),
    {
        let r: Crypter = Crypter {
            alg: method.algorithm(),
            key: copy_range(subkey, 0, subkey.len()),
            nonce: [0u8; 12],
        };
        assert(r.key@ =~= subkey@);
        assert(r.nonce@ =~= Seq::new(12, |i: int| 0u8));
        r
    }

    /// Counts the nonce up.
    pub fn bump(&mut self)
        ensures
            final(self).nonce@ == bumped(old(self).nonce@),
            final(self).alg == old(self).alg,
            final(self).key == old(self).key,
    {
        let ghost n0 = self.nonce@;
        let mut i: usize = 0;
        assert(n0.skip(0) =~= n0);
        while i < 12 && self.nonce[i] == 255
            invariant
                i <= 12,
                n0.len() == 12,
                n0 == old(self).nonce@,
                self.alg == old(self).alg,
                self.key == old(self).key,
                forall|j: int| i <= j < 12 ==> self.nonce@[j] == n0[j],
                forall|j: int| 0 <= j < i ==> self.nonce@[j] == 0,
                bumped(n0) == Seq::new(i as nat, |j: int| 0u8) + bumped(n0.skip(i as int)),
            decreases 12 - i,
        {
            proof {
                let s = n0.skip(i as int);
                assert(s.drop_first() =~= n0.skip(i + 1));
                assert(s[0] == 255);
                assert(Seq::new(i as nat, |j: int| 0u8) + (seq![0u8] + bumped(n0.skip(i + 1))) =~= Seq::new(
                    (i + 1) as nat,
                    |j: int| 0u8,
                ) + bumped(n0.skip(i + 1)));
            }
            self.nonce[i] = 0;
            i = i + 1;
        }
        if i < 12 {
            let b: u8 = self.nonce[i];
            proof {
                let s = n0.skip(i as int);
                assert(s[0] == b);
                assert(s.drop_first() =~= n0.skip(i + 1));
            }
            self.nonce[i] = b + 1;
        }
        assert(self.nonce@ =~= bumped(n0));
    }

    /// Seals a plaintext under the next nonce.
    pub fn seal(&mut self, plain: &[u8]) -> (r: Result<Vec<u8>, SsError>)
        requires
            old(self).wf(),
        ensures
            final(self).wf(),
            final(self).alg == old(self).alg,
            final(self).key == old(self).key,
            plain@.len() <= 0x1000_0000 ==> r is Ok,
            match r {
                Ok(c) => c@ == aead_sealed(old(self).alg, old(self).key@, old(self).nonce@, plain@) && c@.len()
                    == plain@.len() + TAG_LEN && aead_opened(old(self).alg, old(self).key@, old(self).nonce@, c@)
                    == Some(plain@) && final(self).nonce@ == bumped(old(self).nonce@),
                Err(e) => e is Seal && final(self).nonce == old(self).nonce,
            },
    {
        match ring_seal(self.alg, self.key.as_slice(), &self.nonce, plain) {
            Some(c) => {
                self.bump();
                Ok(c)
            },
            None => Err(SsError::Seal),
        }
    }

    /// Opens a ciphertext under the next nonce. Where that fails, the nonce stays.
    pub fn open(&mut self, sealed: &[u8]) -> (r: Result<Vec<u8>, SsError>)
        requires
            old(self).wf(),
        ensures
            final(self).wf(),
            final(self).alg == old(self).alg,
            final(self).key == old(self).key,
            match r {
                Ok(p) => aead_opened(old(self).alg, old(self).key@, old(self).nonce@, sealed@) == Some(p@) && p@.len()
                    + TAG_LEN == sealed@.len() && final(self).nonce@ == bumped(old(self).nonce@),
                Err(e) => e is Open && aead_opened(old(self).alg, old(self).key@, old(self).nonce@, sealed@) is None
                    && final(self).nonce == old(self).nonce,
            },
    {
        match ring_open(self.alg, self.key.as_slice(), &self.nonce, sealed) {
            Some(p) => {
                self.bump();
                Ok(p)
            },
            None => Err(SsError::Open),
        }
    }
}

/// A text without the leading characters `c`.
pub open spec fn strip_leading(s: Seq<char>, c: char) -> Seq<char>
    decreases s.len(),
{
    if s.len() > 0 && s[0] == c {
        strip_leading(s.drop_first(), c)
    } else {
        s
    }
}

/// A text without the trailing characters `c`.
pub open spec fn strip_trailing(s: Seq<char>, c: char) -> Seq<char>
    decreases s.len(),
{
    if s.len() > 0 && s.last() == c {
        strip_trailing(s.drop_last(), c)
    } else {
        s
    }
}

/// Removes leading characters `a` and trailing characters `b`.
pub fn strip_both(s: &[char], a: char, b: char) -> (r: &[char])
    ensures
        r@ == strip_trailing(strip_leading(s@, a), b),
{
    let mut i: usize = 0;
    assert(s@.skip(0) =~= s@);
    while i < s.len() && s[i] == a
        invariant
            i <= s@.len(),
            strip_leading(s@, a) == strip_leading(s@.skip(i as int), a),
        decreases s@.len() - i,
    {
        assert(s@.skip(i as int).drop_first() =~= s@.skip(i + 1));
        i = i + 1;
    }
    let mut j: usize = s.len();
    assert(strip_leading(s@, a) == s@.subrange(i as int, j as int)) by {
        assert(s@.skip(i as int) =~= s@.subrange(i as int, j as int));
    }
    while j > i && s[j - 1] == b
        invariant
            i <= j <= s@.len(),
            strip_trailing(strip_leading(s@, a), b) == strip_trailing(s@.subrange(i as int, j as int), b),
        decreases j,
    {
        assert(s@.subrange(i as int, j as int).drop_last() =~= s@.subrange(i as int, j - 1));
        j = j - 1;
    }
    slice_subrange(s, i, j)
}

/// A target `host:port` as an encoded address: the host may stand in brackets.
pub enum SocksAddr {
    Bytes(Seq<u8>),
    /// There is no port in the target.
    MissingPort,
    /// This is no port.
    BadPort(Seq<char>),
    /// This host is empty or too long.
    BadHost(Seq<char>),
}

/// The encoded address of a target.
pub open spec fn socks_addr(target: Seq<char>) -> SocksAddr {
    let i = last_index(target, ':');
    if i < 0 {
        SocksAddr::MissingPort
    } else {
        match uint_text(target.skip(i + 1), 65535) {
            None => SocksAddr::BadPort(target.skip(i + 1)),
            Some(p) => {
                let host = strip_trailing(strip_leading(target.take(i), '['), ']');
                let name = encode_utf8(host);
                if ipv4_text(host) is Some {
                    SocksAddr::Bytes(addr_bytes(SocketView::V4(ipv4_text(host)->0, p as u16)))
                } else if ipv6_text(host) is Some {
                    SocksAddr::Bytes(addr_bytes(SocketView::V6(ipv6_text(host)->0, p as u16, 0)))
                } else if name.len() == 0 || name.len() > 255 {
                    SocksAddr::BadHost(host)
                } else {
                    SocksAddr::Bytes(name_bytes(name, p as u16))
                }
            },
        }
    }
}

/// An error is the one for a target that cannot be encoded.
pub open spec fn target_error(target: Seq<char>, e: SsError) -> bool {
    match socks_addr(target) {
        SocksAddr::Bytes(_) => false,
        SocksAddr::MissingPort => e matches SsError::MissingPort(x) && x@ == target,
        SocksAddr::BadPort(p) => e matches SsError::BadPort(x) && x@ == p,
        SocksAddr::BadHost(h) => e matches SsError::BadHost(x) && x@ == h,
    }
}

/// Encodes a target `host:port`.
pub fn encode_socks_addr(target: &str) -> (r: Result<Vec<u8>, SsError>)
    ensures
        match r {
            Ok(v) => socks_addr(target@) == SocksAddr::Bytes(v@),
            Err(e) => target_error(target@, e),
        },
{
    let t: Vec<char> = chars_of(target);
    let t: &[char] = t.as_slice();
    let i: usize = match rfind_char(t, ':') {
        Some(i) => i,
        None => {
            return Err(SsError::MissingPort(target.to_owned()));
        },
    };
    let port_text: &[char] = slice_subrange(t, i + 1, t.len());
    assert(port_text@ =~= t@.skip(i + 1));
    let port: u16 = match parse_uint(port_text, 65535) {
        Some(p) => p as u16,
        None => {
            return Err(SsError::BadPort(string_of(port_text)));
        },
    };
    let head: &[char] = slice_subrange(t, 0, i);
    assert(head@ =~= t@.take(i as int));
    let host: &[char] = strip_both(head, '[', ']');
    let mut out: Vec<u8> = Vec::new();
    match parse_ipv4(host) {
        Some(o) => {
            push_addr(&mut out, &SocketAddr::V4(o, port));
            assert(out@ =~= addr_bytes(SocketView::V4(o@, port)));
            return Ok(out);
        },
        None => {},
    }
    match parse_ipv6(host) {
        Some(o) => {
            push_addr(&mut out, &SocketAddr::V6(o, port, 0));
            assert(out@ =~= addr_bytes(SocketView::V6(o@, port, 0)));
            return Ok(out);
        },
        None => {},
    }
    let name_text: String = string_of(host);
    let name: &[u8] = name_text.as_str().as_bytes();
    if name.len() == 0 || name.len() > 255 {
        return Err(SsError::BadHost(name_text));
    }
    out.push(ATYP_NAME);
    out.push(name.len() as u8);
    push_bytes(&mut out, name);
    push_u16(&mut out, port);
    assert(out@ =~= name_bytes(name@, port));
    Ok(out)
}

/// The variable header of a request: the target and then either padding or the first payload.
pub open spec fn request_tail(addr: Seq<u8>, payload: Seq<u8>, padding: Seq<u8>) -> Seq<u8> {
    if payload.len() == 0 {
        addr + be16(padding.len() as u16) + padding
    } else {
        addr + be16(0) + payload
    }
}

/// The fixed header of a request: type, clock and length of the variable header.
pub open spec fn request_head(now: u64, tail_len: nat) -> Seq<u8> {
    seq![SS2022_TYPE_CLIENT] + be64(now) + be16(tail_len as u16)
}

/// Builds both headers of a request of the 2022 edition. A request without a payload carries the
/// given padding.
pub fn build_2022_request(target: &str, initial_payload: &[u8], now: u64, padding: &[u8]) -> (r: Result<
    (Vec<u8>, Vec<u8>),
    SsError,
>)
    requires
        padding@.len() <= MAX_PADDING,
    ensures
        match socks_addr(target@) {
            SocksAddr::Bytes(b) => {
                let tail = request_tail(b, initial_payload@, padding@);
                if tail.len() > 65535 {
                    r matches Err(SsError::HeaderTooLong(n)) && n == tail.len()
                } else {
                    r matches Ok(h) && h.0@ == request_head(now, tail.len()) && h.1@ == tail
                }
            },
            _ => r matches Err(e) && target_error(target@, e),
        },
{
    let addr: Vec<u8> = match encode_socks_addr(target) {
        Ok(a) => a,
        Err(e) => {
            return Err(e);
        },
    };
    let ghost a0 = addr@;
    let mut var: Vec<u8> = addr;
    if initial_payload.len() == 0 {
        push_u16(&mut var, padding.len() as u16);
        push_bytes(&mut var, padding);
    } else {
        push_u16(&mut var, 0);
        push_bytes(&mut var, initial_payload);
    }
    assert(var@ =~= request_tail(a0, initial_payload@, padding@));
    if var.len() > 65535 {
        return Err(SsError::HeaderTooLong(var.len()));
    }
    let mut fixed: Vec<u8> = Vec::new();
    fixed.push(SS2022_TYPE_CLIENT);
    push_u64(&mut fixed, now);
    push_u16(&mut fixed, var.len() as u16);
    assert(fixed@ =~= request_head(now, var@.len()));
    Ok((fixed, var))
}

/// The distance between two clocks.
pub open spec fn clock_gap(a: int, b: int) -> int {
    if a < b {
        b - a
    } else {
        a - b
    }
}

/// A judged response header.
pub enum Response {
    Len(int),
    BadLength,
    BadType,
    BadClock,
    BadSalt,
}

/// Judges the fixed header of a response: type, clock, the salt of the request, and the length of the
/// first payload.
pub open spec fn response_header(plain: Seq<u8>, salt: Seq<u8>, now: int) -> Response {
    let k = salt.len() as int;
    if plain.len() != 11 + k {
        Response::BadLength
    } else if plain[0] != SS2022_TYPE_SERVER {
        Response::BadType
    } else if clock_gap(now, u64_at(plain, 1)) > SS2022_TS_TOLERANCE {
        Response::BadClock
    } else if plain.subrange(9, 9 + k) != salt {
        Response::BadSalt
    } else {
        Response::Len(u16_at(plain, 9 + k))
    }
}

/// Judges the fixed header of a response and returns the length of the first payload.
pub fn parse_2022_response_header(plain: &[u8], our_salt: &[u8], now: u64) -> (r: Result<usize, SsError>)
    requires
        our_salt@.len() <= usize::MAX - 11,
    ensures
        match response_header(plain@, our_salt@, now as int) {
            Response::Len(n) => r matches Ok(m) && m == n,
            Response::BadLength => r matches Err(SsError::HeaderLength(n)) && n == plain@.len(),
            Response::BadType => r matches Err(SsError::HeaderType(t)) && t == plain@[0],
            Response::BadClock => r matches Err(SsError::Clock(ts, n)) && ts == u64_at(plain@, 1) && n == now,
            Response::BadSalt => r matches Err(SsError::Salt),
        },
{
    let k: usize = our_salt.len();
    if plain.len() != 11 + k {
        return Err(SsError::HeaderLength(plain.len()));
    }
    if plain[0] != SS2022_TYPE_SERVER {
        return Err(SsError::HeaderType(plain[0]));
    }
    let ts: u64 = read_u64(plain, 1);
    let gap: u64 = if now < ts {
        ts - now
    } else {
        now - ts
    };
    if gap > SS2022_TS_TOLERANCE {
        return Err(SsError::Clock(ts, now));
    }
    if !same_bytes(slice_subrange(plain, 9, 9 + k), our_salt) {
        return Err(SsError::Salt);
    }
    Ok(read_u16(plain, 9 + k) as usize)
}

/// A response that echoes the salt of the request within the allowed clock difference is accepted,
/// with the length it states.
pub proof fn law_response_accepted(salt: Seq<u8>, ts: u64, now: int, len: u16)
    requires
        clock_gap(now, ts as int) <= SS2022_TS_TOLERANCE,
    ensures
        response_header(seq![SS2022_TYPE_SERVER] + be64(ts) + salt + be16(len), salt, now) == Response::Len(len as int),
{
    let p = seq![SS2022_TYPE_SERVER] + be64(ts) + salt + be16(len);
    let k = salt.len() as int;
    assert(p.subrange(1, 9) =~= be64(ts));
    crate::wire::lemma_be64_at(ts, p, 1);
    assert(p.subrange(9, 9 + k) =~= salt);
    assert(p.subrange(9 + k, 11 + k) =~= be16(len));
    lemma_be16_at(len, p, 9 + k);
}

/// The length of the first chunk of some data.
pub open spec fn chunk_len(data: Seq<u8>) -> int {
    if data.len() <= MAX_CHUNK {
        data.len() as int
    } else {
        MAX_CHUNK as int
    }
}

/// Data as a sealed stream: of each chunk its length and then its bytes, each sealed under a nonce of
/// its own.
pub open spec fn sealed_stream(a: Aead, key: Seq<u8>, nonce: Seq<u8>, data: Seq<u8>) -> Seq<u8>
    decreases data.len(),
{
    if data.len() == 0 {
        seq![]
    } else {
        let n = chunk_len(data);
        aead_sealed(a, key, nonce, be16(n as u16)) + aead_sealed(a, key, bumped(nonce), data.take(n)) + sealed_stream(
            a,
            key,
            bumped(bumped(nonce)),
            data.skip(n),
        )
    }
}

/// The nonce after some data.
pub open spec fn nonce_after(nonce: Seq<u8>, data: Seq<u8>) -> Seq<u8>
    decreases data.len(),
{
    if data.len() == 0 {
        nonce
    } else {
        nonce_after(bumped(bumped(nonce)), data.skip(chunk_len(data)))
    }
}

/// The data that a sealed stream opens to; `None` where it does not open, holds a chunk of a length
/// that is not allowed, or ends within a chunk.
pub open spec fn opened_stream(a: Aead, key: Seq<u8>, nonce: Seq<u8>, wire: Seq<u8>) -> Option<Seq<u8>>
    decreases wire.len(),
{
    if wire.len() == 0 {
        Some(seq![])
    } else if wire.len() < 2 + TAG_LEN {
        None
    } else {
        match aead_opened(a, key, nonce, wire.take(18)) {
            None => None,
            Some(l) => {
                let n = u16_at(l, 0);
                if n <= 0 || n > MAX_CHUNK || wire.len() < 34 + n {
                    None
                } else {
                    match aead_opened(a, key, bumped(nonce), wire.subrange(18, 34 + n)) {
                        None => None,
                        Some(c) => match opened_stream(a, key, bumped(bumped(nonce)), wire.skip(34 + n)) {
                            None => None,
                            Some(rest) => Some(c + rest),
                        },
                    }
                }
            },
        }
    }
}

/// The sending end of a stream.
pub struct SsWriter {
    pub crypter: Crypter,
}

/// The nonce after a sealed stream that opens.
pub open spec fn stream_end(a: Aead, key: Seq<u8>, nonce: Seq<u8>, wire: Seq<u8>) -> Seq<u8>
    decreases wire.len(),
{
    if wire.len() < 2 + TAG_LEN {
        nonce
    } else {
        match aead_opened(a, key, nonce, wire.take(18)) {
            None => nonce,
            Some(l) => {
                let n = u16_at(l, 0);
                if n <= 0 || wire.len() < 34 + n {
                    nonce
                } else {
                    stream_end(a, key, bumped(bumped(nonce)), wire.skip(34 + n))
                }
            },
        }
    }
}

/// A chunk whose length and whose body the reader opened, one under each nonce, comes before what the
/// rest of the stream opens to.
pub proof fn law_chunk_first(
    a: Aead,
    key: Seq<u8>,
    nonce: Seq<u8>,
    length: Seq<u8>,
    chunk: Seq<u8>,
    head: Seq<u8>,
    body: Seq<u8>,
    tail: Seq<u8>,
    rest: Seq<u8>,
)
    requires
        0 < u16_at(length, 0) <= MAX_CHUNK,
        head.len() == 18,
        body.len() == u16_at(length, 0) + TAG_LEN,
        aead_opened(a, key, nonce, head) == Some(length),
        aead_opened(a, key, bumped(nonce), body) == Some(chunk),
        opened_stream(a, key, bumped(bumped(nonce)), tail) == Some(rest),
    ensures
        opened_stream(a, key, nonce, head + body + tail) == Some(chunk + rest),
        stream_end(a, key, nonce, head + body + tail) == stream_end(a, key, bumped(bumped(nonce)), tail),
{
    let w = head + body + tail;
    let n = u16_at(length, 0);
    assert(w.take(18) =~= head);
    assert(w.subrange(18, 34 + n) =~= body);
    assert(w.skip(34 + n) =~= tail);
}

/// What is written in several turns is read as one stream: the data of the first turn, and behind it
/// those of the next.
pub proof fn law_streams_join(a: Aead, key: Seq<u8>, nonce: Seq<u8>, w1: Seq<u8>, w2: Seq<u8>, d1: Seq<u8>, d2: Seq<u8>)
    requires
        opened_stream(a, key, nonce, w1) == Some(d1),
        opened_stream(a, key, stream_end(a, key, nonce, w1), w2) == Some(d2),
    ensures
        opened_stream(a, key, nonce, w1 + w2) == Some(d1 + d2),
    decreases w1.len(),
{
    if w1.len() == 0 {
        assert(w1 + w2 =~= w2);
        assert(d1 + d2 =~= d2);
    } else {
        let head = w1.take(18);
        let l = aead_opened(a, key, nonce, head)->0;
        let n = u16_at(l, 0);
        let body = w1.subrange(18, 34 + n);
        let t1 = w1.skip(34 + n);
        let c = aead_opened(a, key, bumped(nonce), body)->0;
        let r1 = opened_stream(a, key, bumped(bumped(nonce)), t1)->0;
        law_streams_join(a, key, bumped(bumped(nonce)), t1, w2, r1, d2);
        law_chunk_first(a, key, nonce, l, c, head, body, t1 + w2, r1 + d2);
        assert(head + body + (t1 + w2) =~= w1 + w2);
        assert(c + (r1 + d2) =~= d1 + d2);
    }
}

impl SsWriter {
    /// Seals data for the stream and returns the bytes to be written. The other end opens them to the
    /// same data.
    pub fn write_all(&mut self, data: &[u8]) -> (r: Result<Vec<u8>, SsError>)
        requires
            old(self).crypter.wf(),
        ensures
            final(self).crypter.wf(),
            final(self).crypter.alg == old(self).crypter.alg,
            final(self).crypter.key == old(self).crypter.key,
            r matches Ok(w) && w@ == sealed_stream(
                old(self).crypter.alg,
                old(self).crypter.key@,
                old(self).crypter.nonce@,
                data@,
            ) && opened_stream(old(self).crypter.alg, old(self).crypter.key@, old(self).crypter.nonce@, w@) == Some(data@)
                && stream_end(old(self).crypter.alg, old(self).crypter.key@, old(self).crypter.nonce@, w@)
                == final(self).crypter.nonce@ && final(self).crypter.nonce@ == nonce_after(old(self).crypter.nonce@, data@),
        decreases data@.len(),
    {
        let mut out: Vec<u8> = Vec::new();
        if data.len() == 0 {
            assert(out@ =~= seq![]);
            assert(data@ =~= seq![]);
            return Ok(out);
        }
        let n: usize = if data.len() <= MAX_CHUNK {
            data.len()
        } else {
            MAX_CHUNK
        };
        let chunk: &[u8] = slice_subrange(data, 0, n);
        let rest: &[u8] = slice_subrange(data, n, data.len());
        assert(chunk@ =~= data@.take(n as int));
        assert(rest@ =~= data@.skip(n as int));
        let mut prefix: Vec<u8> = Vec::new();
        push_u16(&mut prefix, n as u16);
        assert(prefix@ =~= be16(n as u16));
        let head: Vec<u8> = match self.crypter.seal(prefix.as_slice()) {
            Ok(h) => h,
            Err(e) => {
                return Err(e);
            },
        };
        let body: Vec<u8> = match self.crypter.seal(chunk) {
            Ok(b) => b,
            Err(e) => {
                return Err(e);
            },
        };
        match self.write_all(rest) {
            Ok(tail) => {
                push_bytes(&mut out, head.as_slice());
                push_bytes(&mut out, body.as_slice());
                push_bytes(&mut out, tail.as_slice());
                assert(out@ =~= head@ + body@ + tail@);
                proof {
                    assert(prefix@.subrange(0, 2) =~= prefix@);
                    lemma_be16_at(n as u16, prefix@, 0);
                    law_chunk_first(
                        old(self).crypter.alg,
                        old(self).crypter.key@,
                        old(self).crypter.nonce@,
                        prefix@,
                        chunk@,
                        head@,
                        body@,
                        tail@,
                        rest@,
                    );
                    assert(chunk@ + rest@ =~= data@);
                }
                Ok(out)
            },
            Err(e) => Err(e),
        }
    }

    /// Seals a header as it is, without a length before it.
    pub fn write_raw_sealed(&mut self, plain: &[u8]) -> (r: Result<Vec<u8>, SsError>)
        requires
            old(self).crypter.wf(),
        ensures
            final(self).crypter.wf(),
            final(self).crypter.alg == old(self).crypter.alg,
            final(self).crypter.key == old(self).crypter.key,
            plain@.len() <= 0x1000_0000 ==> r is Ok,
            match r {
                Ok(c) => c@ == aead_sealed(
                    old(self).crypter.alg,
                    old(self).crypter.key@,
                    old(self).crypter.nonce@,
                    plain@,
                ) && aead_opened(old(self).crypter.alg, old(self).crypter.key@, old(self).crypter.nonce@, c@) == Some(
                    plain@,
                ) && final(self).crypter.nonce@ == bumped(old(self).crypter.nonce@),
                Err(e) => e is Seal && final(self).crypter.nonce == old(self).crypter.nonce,
            },
    {
        self.crypter.seal(plain)
    }
}

/// What the receiving end waits for next.
#[derive(Clone, Copy, PartialEq, Eq, Structural, Debug)]
pub enum Want {
    /// The salt of the stream.
    Salt,
    /// The fixed header of a response of the 2022 edition.
    Header,
    /// The first payload of a response of the 2022 edition, of this length.
    First(usize),
    /// The length of a chunk.
    Length,
    /// A chunk of this length.
    Chunk(usize),
}

/// What came of some bytes or of the end of the stream.
pub enum ReadStep {
    /// More bytes are wanted.
    More,
    /// A chunk, which may be empty only as the first payload of a response.
    Data(Vec<u8>),
    /// The stream ended between chunks.
    Eof,
    /// The stream is broken.
    Failed(SsError),
}

/// What came of some bytes, as a value.
pub enum ReadView {
    More,
    Data(Seq<u8>),
    Eof,
    Failed,
}

/// What came of some bytes, as a value.
pub open spec fn read_view(r: ReadStep) -> ReadView {
    match r {
        ReadStep::More => ReadView::More,
        ReadStep::Data(d) => ReadView::Data(d@),
        ReadStep::Eof => ReadView::Eof,
        ReadStep::Failed(_) => ReadView::Failed,
    }
}

/// What the receiving end waits for behind the salt.
pub open spec fn after_salt(m: Method) -> Want {
    if m.edition_2022() {
        Want::Header
    } else {
        Want::Length
    }
}

/// What comes of the wanted bytes, by what they open to, and what is waited for next.
pub open spec fn after_opening(want: Want, opened: Option<Seq<u8>>, req_salt: Seq<u8>, now: int) -> (ReadView, Want) {
    match opened {
        None => (ReadView::Failed, Want::Length),
        Some(p) => match want {
            Want::Header => match response_header(p, req_salt, now) {
                Response::Len(n) => if n == 0 {
                    (ReadView::Data(seq![]), Want::Length)
                } else {
                    (ReadView::More, Want::First(n as usize))
                },
                _ => (ReadView::Failed, Want::Length),
            },
            Want::Length => if u16_at(p, 0) == 0 || u16_at(p, 0) > MAX_CHUNK {
                (ReadView::Failed, Want::Length)
            } else {
                (ReadView::More, Want::Chunk(u16_at(p, 0) as usize))
            },
            _ => (ReadView::Data(p), Want::Length),
        },
    }
}

/// The stream may end where this is waited for.
pub open spec fn may_end(want: Want) -> bool {
    !(want is First || want is Chunk)
}

/// The receiving end of a stream.
pub struct SsReader {
    pub crypter: Option<Crypter>,
    pub method: Method,
    pub master: Vec<u8>,
    pub req_salt: Vec<u8>,
    pub want: Want,
}

impl SsReader {
    /// The session key is known exactly when the salt has been read, and no length is out of bounds.
    pub open spec fn wf(&self) -> bool {
        &&& (self.want is Salt <==> self.crypter is None)
        &&& (self.crypter matches Some(c) ==> c.wf() && c.alg == self.method.aead())
        &&& (self.want matches Want::First(n) ==> n <= 65535)
        &&& (self.want matches Want::Chunk(n) ==> 0 < n <= MAX_CHUNK)
        &&& (self.want is Header || self.want is First ==> self.method.edition_2022())
        &&& self.req_salt@.len() <= 65535
    }

    /// Everything but what changes while reading stays.
    pub open spec fn same_session(self, o: SsReader) -> bool {
        self.method == o.method && self.master == o.master && self.req_salt == o.req_salt
    }

    /// How many bytes are wanted.
    pub open spec fn wanted(self) -> int {
        match self.want {
            Want::Salt => self.method.key_size() as int,
            Want::Header => 27 + self.method.key_size() as int,
            Want::First(n) => n + TAG_LEN,
            Want::Length => 18,
            Want::Chunk(n) => n + TAG_LEN,
        }
    }

    /// What the wanted bytes open to under the next nonce.
    pub open spec fn opens(self, bytes: Seq<u8>) -> Option<Seq<u8>> {
        aead_opened(self.method.aead(), self.crypter->0.key@, self.crypter->0.nonce@, bytes)
    }

    /// The session key after a successful opening: the nonce counted up.
    pub open spec fn advanced(self, o: SsReader) -> bool {
        self.crypter matches Some(c) && o.crypter matches Some(d) && c.key == d.key && c.nonce@ == bumped(d.nonce@)
    }

    /// A reader that has read nothing.
    pub fn new(method: Method, master: Vec<u8>, req_salt: Vec<u8>) -> (r: SsReader)
        requires
            req_salt@.len() <= 65535,
        ensures
            r.wf(),
            r.method == method,
            r.master == master,
            r.req_salt == req_salt,
            r.want is Salt,
    {
        SsReader { crypter: None, method, master, req_salt, want: Want::Salt }
    }

    /// How many bytes are wanted.
    pub fn need(&self) -> (r: usize)
        requires
            self.wf(),
        ensures
            r == self.wanted(),
    {
        match self.want {
            Want::Salt => self.method.key_len(),
            Want::Header => 11 + self.method.key_len() + TAG_LEN,
            Want::First(n) => n + TAG_LEN,
            Want::Length => 2 + TAG_LEN,
            Want::Chunk(n) => n + TAG_LEN,
        }
    }

    /// The stream ended before the wanted bytes came. That is a proper end where a new chunk could
    /// have started, and an error within one.
    pub fn on_eof(&self) -> (r: ReadStep)
        ensures
            match self.want {
                Want::First(_) => r matches ReadStep::Failed(SsError::UnexpectedEof),
                Want::Chunk(_) => r matches ReadStep::Failed(SsError::UnexpectedEof),
                _ => r is Eof,
            },
            r is Eof <==> may_end(self.want),
    {
        match self.want {
            Want::First(_) => ReadStep::Failed(SsError::UnexpectedEof),
            Want::Chunk(_) => ReadStep::Failed(SsError::UnexpectedEof),
            _ => ReadStep::Eof,
        }
    }

    /// Takes in the wanted bytes.
    pub fn feed(&mut self, bytes: &[u8], now: u64) -> (r: ReadStep)
        requires
            old(self).wf(),
            bytes@.len() == old(self).wanted(),
        ensures
            final(self).wf(),
            final(self).same_session(*old(self)),
            match old(self).want {
                Want::Salt => r is More && (final(self).crypter matches Some(c) && c.key@ == session_key(
                    old(self).method,
                    old(self).master@,
                    bytes@,
                ) && c.nonce@ == Seq::new(12, |i: int| 0u8)) && final(self).want == if old(self).method.edition_2022() {
                    Want::Header
                } else {
                    Want::Length
                },
                Want::Header => match old(self).opens(bytes@) {
                    None => (r matches ReadStep::Failed(SsError::Open)) && final(self).crypter == old(self).crypter
                        && final(self).want is Length,
                    Some(h) => final(self).advanced(*old(self)) && match response_header(
                        h,
                        old(self).req_salt@,
                        now as int,
                    ) {
                        Response::Len(n) => if n == 0 {
                            (r matches ReadStep::Data(d) && d@.len() == 0) && final(self).want is Length
                        } else {
                            r is More && final(self).want == Want::First(n as usize)
                        },
                        Response::BadLength => (r matches ReadStep::Failed(SsError::HeaderLength(_)))
                            && final(self).want is Length,
                        Response::BadType => (r matches ReadStep::Failed(SsError::HeaderType(_)))
                            && final(self).want is Length,
                        Response::BadClock => (r matches ReadStep::Failed(SsError::Clock(_, _)))
                            && final(self).want is Length,
                        Response::BadSalt => (r matches ReadStep::Failed(SsError::Salt)) && final(self).want is Length,
                    },
                },
                Want::Length => match old(self).opens(bytes@) {
                    None => (r matches ReadStep::Failed(SsError::Open)) && final(self).crypter == old(self).crypter
                        && final(self).want is Length,
                    Some(l) => final(self).advanced(*old(self)) && if u16_at(l, 0) == 0 || u16_at(l, 0) > MAX_CHUNK {
                        (r matches ReadStep::Failed(SsError::ChunkLength(n)) && n == u16_at(l, 0)) && final(self).want is Length
                    } else {
                        r is More && final(self).want == Want::Chunk(u16_at(l, 0) as usize)
                    },
                },
                _ => match old(self).opens(bytes@) {
                    None => (r matches ReadStep::Failed(SsError::Open)) && final(self).crypter == old(self).crypter
                        && final(self).want is Length,
                    Some(d) => (r matches ReadStep::Data(v) && v@ == d) && final(self).advanced(*old(self))
                        && final(self).want is Length,
                },
            },
            (read_view(r), final(self).want) == if old(self).want is Salt {
                (ReadView::More, after_salt(old(self).method))
            } else {
                after_opening(old(self).want, old(self).opens(bytes@), old(self).req_salt@, now as int)
            },
    {
        if let Want::Salt = self.want {
            let key: Vec<u8> = derive_session_key(self.method, self.master.as_slice(), bytes);
            self.crypter = Some(Crypter::new(self.method, key.as_slice()));
            self.want = if self.method.is_2022() {
                Want::Header
            } else {
                Want::Length
            };
            return ReadStep::More;
        }
        let was: Want = self.want;
        self.want = Want::Length;
        let mut c: Crypter = match self.crypter.take() {
            Some(c) => c,
            None => {
                return ReadStep::Eof;
            },
        };
        let opened: Result<Vec<u8>, SsError> = c.open(bytes);
        self.crypter = Some(c);
        let plain: Vec<u8> = match opened {
            Ok(p) => p,
            Err(e) => {
                return ReadStep::Failed(e);
            },
        };
        match was {
            Want::Header => match parse_2022_response_header(plain.as_slice(), self.req_salt.as_slice(), now) {
                Ok(n) => {
                    if n == 0 {
                        ReadStep::Data(Vec::new())
                    } else {
                        self.want = Want::First(n);
                        ReadStep::More
                    }
                },
                Err(e) => ReadStep::Failed(e),
            },
            Want::Length => {
                let n: usize = read_u16(plain.as_slice(), 0) as usize;
                if n == 0 || n > MAX_CHUNK {
                    ReadStep::Failed(SsError::ChunkLength(n))
                } else {
                    self.want = Want::Chunk(n);
                    ReadStep::More
                }
            },
            _ => ReadStep::Data(plain),
        }
    }
}

/// The master key of a server: the decoded key in the 2022 edition, the stretched password otherwise.
pub fn master_key(cfg: &SsConfig) -> (r: Result<Vec<u8>, SsError>)
    ensures
        if cfg.method.edition_2022() {
            psk_judged(r, base64_decoded(trimmed(cfg.password@)), cfg.method.key_size())
        } else {
            r matches Ok(v) && v@ == chain_bytes(
                encode_utf8(cfg.password@),
                ((cfg.method.key_size() + 15) / 16) as nat,
            ).take(cfg.method.key_size() as int)
        },
{
    let n: usize = cfg.method.key_len();
    if cfg.method.is_2022() {
        decode_ss2022_psk(cfg.password.as_str(), n)
    } else {
        Ok(evp_bytes_to_key(cfg.password.as_str(), n))
    }
}

/// What a client sends first, and the sending end for what follows.
pub struct Opening {
    pub bytes: Vec<u8>,
    pub writer: SsWriter,
}

/// What a client sends first for an encoded target, and the sending end after it: the salt, and then
/// the target, sealed: as the first chunk in the older edition, as two headers with padding in the 2022
/// edition.
pub open spec fn opened_with(
    o: Opening,
    m: Method,
    master: Seq<u8>,
    salt: Seq<u8>,
    addr: Seq<u8>,
    now: u64,
    padding: Seq<u8>,
) -> bool {
    let zero = Seq::new(12, |i: int| 0u8);
    let key = session_key(m, master, salt);
    &&& o.writer.crypter.wf()
    &&& o.writer.crypter.alg == m.aead()
    &&& o.writer.crypter.key@ == key
    &&& if m.edition_2022() {
        let tail = request_tail(addr, seq![], padding);
        &&& o.bytes@ == salt + aead_sealed(m.aead(), key, zero, request_head(now, tail.len())) + aead_sealed(
            m.aead(),
            key,
            bumped(zero),
            tail,
        )
        &&& o.writer.crypter.nonce@ == bumped(bumped(zero))
    } else {
        &&& o.bytes@ == salt + sealed_stream(m.aead(), key, zero, addr)
        &&& opened_stream(m.aead(), key, zero, o.bytes@.skip(salt.len() as int)) == Some(addr)
        &&& o.writer.crypter.nonce@ == nonce_after(zero, addr)
    }
}

/// Builds what a client sends first, with the given salt, clock and padding.
pub fn open_client(m: Method, master: &[u8], salt: &[u8], target: &str, now: u64, padding: &[u8]) -> (r: Result<
    Opening,
    SsError,
>)
    requires
        padding@.len() <= MAX_PADDING,
    ensures
        match r {
            Ok(o) => socks_addr(target@) matches SocksAddr::Bytes(b) && opened_with(
                o,
                m,
                master@,
                salt@,
                b,
                now,
                padding@,
            ),
            Err(e) => target_error(target@, e),
        },
{
    let key: Vec<u8> = derive_session_key(m, master, salt);
    let mut writer: SsWriter = SsWriter { crypter: Crypter::new(m, key.as_slice()) };
    let mut bytes: Vec<u8> = Vec::new();
    push_bytes(&mut bytes, salt);
    assert(bytes@ =~= salt@);
    if m.is_2022() {
        let none: Vec<u8> = Vec::new();
        assert(none@ =~= seq![]);
        proof {
            lemma_request_fits(target@, padding@);
        }
        match build_2022_request(target, none.as_slice(), now, padding) {
            Err(e) => Err(e),
            Ok(h) => {
                let a: Vec<u8> = match writer.write_raw_sealed(h.0.as_slice()) {
                    Ok(a) => a,
                    Err(e) => {
                        return Err(e);
                    },
                };
                let b: Vec<u8> = match writer.write_raw_sealed(h.1.as_slice()) {
                    Ok(b) => b,
                    Err(e) => {
                        return Err(e);
                    },
                };
                push_bytes(&mut bytes, a.as_slice());
                push_bytes(&mut bytes, b.as_slice());
                assert(bytes@ =~= salt@ + a@ + b@);
                Ok(Opening { bytes, writer })
            },
        }
    } else {
        match encode_socks_addr(target) {
            Err(e) => Err(e),
            Ok(addr) => match writer.write_all(addr.as_slice()) {
                Err(e) => Err(e),
                Ok(w) => {
                    push_bytes(&mut bytes, w.as_slice());
                    assert(bytes@.skip(salt@.len() as int) =~= w@);
                    Ok(Opening { bytes, writer })
                },
            },
        }
    }
}

/// What a client sends first, and the salt in it.
pub struct Started {
    pub salt: Vec<u8>,
    pub opening: Opening,
}

/// Begins a connection: draws the salt and the padding, reads the clock, and builds what is sent first.
pub fn start_client(m: Method, master: &[u8], target: &str) -> (r: Result<Started, SsError>)
    ensures
        match r {
            Ok(s) => s.salt@.len() == m.key_size() && (socks_addr(target@) matches SocksAddr::Bytes(b) && exists|
                now: u64,
                padding: Seq<u8>,
            |
                padding.len() <= MAX_PADDING && #[trigger] opened_with(
                    s.opening,
                    m,
                    master@,
                    s.salt@,
                    b,
                    now,
                    padding,
                )),
            Err(e) => e is NoSalt || target_error(target@, e),
        },
{
    let salt: Vec<u8> = match secure_bytes(m.key_len()) {
        None => {
            return Err(SsError::NoSalt);
        },
        Some(b) => b,
    };
    let padding: Vec<u8> = random_bytes(random_usize(0, MAX_PADDING));
    let now: u64 = current_unix_time();
    match open_client(m, master, salt.as_slice(), target, now, padding.as_slice()) {
        Err(e) => Err(e),
        Ok(opening) => {
            let s: Started = Started { salt, opening };
            assert(opened_with(s.opening, m, master@, s.salt@, socks_addr(target@)->Bytes_0, now, padding@));
            Ok(s)
        },
    }
}

proof fn lemma_request_fits(target: Seq<char>, padding: Seq<u8>)
    requires
        padding.len() <= MAX_PADDING,
    ensures
        socks_addr(target) matches SocksAddr::Bytes(b) ==> b.len() <= 259 && request_tail(b, seq![], padding).len()
            <= 325,
{
    let i = last_index(target, ':');
    if i >= 0 && uint_text(target.skip(i + 1), 65535) is Some {
        let host = strip_trailing(strip_leading(target.take(i), '['), ']');
        crate::ip::lemma_ip_lengths(host);
    }
}

/// The names of the methods, written in any case.
pub proof fn law_method_names(s: Seq<char>)
    ensures
        same_ignore_case(s, "aes-128-gcm"@) ==> method_text(s) == Some(Method::Aes128Gcm),
        same_ignore_case(s, "aes-256-gcm"@) ==> method_text(s) == Some(Method::Aes256Gcm),
        same_ignore_case(s, "chacha20-ietf-poly1305"@) ==> method_text(s) == Some(Method::Chacha20IetfPoly1305),
        same_ignore_case(s, "chacha20-poly1305"@) ==> method_text(s) == Some(Method::Chacha20IetfPoly1305),
        same_ignore_case(s, "2022-blake3-aes-128-gcm"@) ==> method_text(s) == Some(Method::Ss2022Aes128Gcm),
        same_ignore_case(s, "2022-blake3-aes-256-gcm"@) ==> method_text(s) == Some(Method::Ss2022Aes256Gcm),
        same_ignore_case(s, "2022-blake3-chacha20-poly1305"@) ==> method_text(s) == Some(Method::Ss2022Chacha20Poly1305),
        s.len() != 11 && s.len() != 17 && s.len() != 22 && s.len() != 23 && s.len() != 29 ==> method_text(s) is None,
{
    reveal_strlit("aes-128-gcm");
    reveal_strlit("aes-256-gcm");
    reveal_strlit("chacha20-ietf-poly1305");
    reveal_strlit("chacha20-poly1305");
    reveal_strlit("2022-blake3-aes-128-gcm");
    reveal_strlit("2022-blake3-aes-256-gcm");
    reveal_strlit("2022-blake3-chacha20-poly1305");
    let a = "aes-128-gcm"@;
    let b = "aes-256-gcm"@;
    assert(a.len() == 11 && b.len() == 11 && a[4] == '1' && b[4] == '2');
    if same_ignore_case(s, a) && same_ignore_case(s, b) {
        assert(crate::text::lower(s[4]) == crate::text::lower(a[4]));
        assert(crate::text::lower(s[4]) == crate::text::lower(b[4]));
    }
    let c = "2022-blake3-aes-128-gcm"@;
    let d = "2022-blake3-aes-256-gcm"@;
    assert(c.len() == 23 && d.len() == 23 && c[16] == '1' && d[16] == '2');
    if same_ignore_case(s, c) && same_ignore_case(s, d) {
        assert(crate::text::lower(s[16]) == crate::text::lower(c[16]));
        assert(crate::text::lower(s[16]) == crate::text::lower(d[16]));
    }
    assert("chacha20-ietf-poly1305"@.len() == 22);
    assert("chacha20-poly1305"@.len() == 17);
    assert("2022-blake3-chacha20-poly1305"@.len() == 29);
}

/// The keys of a method have sixteen bytes for its smaller cipher and thirty-two for the others, in either
/// edition.
pub proof fn law_key_sizes(m: Method)
    ensures
        m.key_size() == 16 <==> m is Aes128Gcm || m is Ss2022Aes128Gcm,
        m.key_size() == 32 <==> m is Aes256Gcm || m is Chacha20IetfPoly1305 || m is Ss2022Aes256Gcm || m is Ss2022Chacha20Poly1305,
        m.edition_2022() <==> m is Ss2022Aes128Gcm || m is Ss2022Aes256Gcm || m is Ss2022Chacha20Poly1305,
        m.aead() is Aes128Gcm <==> m is Aes128Gcm || m is Ss2022Aes128Gcm,
        m.aead() is Aes256Gcm <==> m is Aes256Gcm || m is Ss2022Aes256Gcm,
        m.aead() is Chacha20Poly1305 <==> m is Chacha20IetfPoly1305 || m is Ss2022Chacha20Poly1305,
{
}

proof fn lemma_stripped(a: Seq<char>, h: Seq<char>, z: Seq<char>)
    requires
        forall|i: int| 0 <= i < a.len() ==> #[trigger] a[i] == '[',
        forall|i: int| 0 <= i < z.len() ==> #[trigger] z[i] == ']',
        h.len() > 0,
        h[0] != '[',
        h.last() != ']',
    ensures
        strip_trailing(strip_leading(a + h + z, '['), ']') == h,
    decreases a.len() + z.len(),
{
    let s = a + h + z;
    if a.len() > 0 {
        assert(s[0] == a[0]);
        assert(s.drop_first() =~= a.drop_first() + h + z);
        lemma_stripped(a.drop_first(), h, z);
    } else {
        assert(s =~= h + z);
        assert(s[0] == h[0]);
        lemma_stripped_end(h, z);
    }
}

proof fn lemma_stripped_end(h: Seq<char>, z: Seq<char>)
    requires
        forall|i: int| 0 <= i < z.len() ==> #[trigger] z[i] == ']',
        h.len() > 0,
        h.last() != ']',
    ensures
        strip_trailing(h + z, ']') == h,
    decreases z.len(),
{
    if z.len() > 0 {
        assert((h + z).last() == z.last());
        assert((h + z).drop_last() =~= h + z.drop_last());
        lemma_stripped_end(h, z.drop_last());
    } else {
        assert(h + z =~= h);
    }
}

/// A target is encoded as what its host is, an address of either version or else a name, with its port;
/// square brackets around the host are taken off. A name has from one to two hundred and fifty-five
/// bytes.
pub proof fn law_target_encoded(a: Seq<char>, host: Seq<char>, z: Seq<char>, port: u16)
    requires
        forall|i: int| 0 <= i < a.len() ==> #[trigger] a[i] == '[',
        forall|i: int| 0 <= i < z.len() ==> #[trigger] z[i] == ']',
        host.len() > 0,
        host[0] != '[',
        host.last() != ']',
    ensures
        ({
            let r = socks_addr(a + host + z + seq![':'] + decimal(port as nat));
            &&& ipv4_text(host) matches Some(o) ==> r == SocksAddr::Bytes(addr_bytes(SocketView::V4(o, port)))
            &&& ipv4_text(host) is None && ipv6_text(host) is Some ==> r == SocksAddr::Bytes(
                addr_bytes(SocketView::V6(ipv6_text(host)->0, port, 0)),
            )
            &&& ipv4_text(host) is None && ipv6_text(host) is None && 0 < encode_utf8(host).len() <= 255 ==> r
                == SocksAddr::Bytes(name_bytes(encode_utf8(host), port))
            &&& ipv4_text(host) is None && ipv6_text(host) is None && encode_utf8(host).len() > 255 ==> r
                == SocksAddr::BadHost(host)
        }),
{
    crate::text::lemma_colon_port(a + host + z, port as nat);
    crate::text::law_decimal_roundtrip(port as nat, 65535);
    lemma_stripped(a, host, z);
}

/// A target without a colon has no port, and what stands behind the last colon must be one.
pub proof fn law_target_without_port(a: Seq<char>, b: Seq<char>)
    requires
        !b.contains(':'),
    ensures
        socks_addr(b) is MissingPort,
        uint_text(b, 65535) is None ==> socks_addr(a + seq![':'] + b) == SocksAddr::BadPort(b),
{
    crate::seqs::lemma_last_index_bounds(b, ':');
    if last_index(b, ':') >= 0 {
        assert(b.contains(b[last_index(b, ':')]));
    }
    let t = a + seq![':'] + b;
    let n = a.len() as int;
    assert forall|j: int| n < j < t.len() implies t[j] != ':' by {
        assert(t[j] == b[j - n - 1]);
        assert(b.contains(b[j - n - 1]));
    }
    crate::seqs::lemma_last_index_is(t, ':', n);
    assert(t.skip(n + 1) =~= b);
}

/// Both headers of a request can be read: the first holds the type zero, the clock and the length of the
/// second; the second holds the target, the length of the padding, the padding, and behind it the first
/// payload. A request with a payload has no padding.
pub proof fn law_request_read(addr: Seq<u8>, payload: Seq<u8>, padding: Seq<u8>, now: u64)
    requires
        padding.len() <= 64,
        request_tail(addr, payload, padding).len() <= 65535,
    ensures
        ({
            let t = request_tail(addr, payload, padding);
            let h = request_head(now, t.len());
            let n = addr.len() as int;
            let k = u16_at(t, n);
            &&& h.len() == 11 && h[0] == 0 && u64_at(h, 1) == now && u16_at(h, 9) == t.len()
            &&& t.take(n) == addr
            &&& payload.len() == 0 ==> k == padding.len() && t.skip(n + 2) == padding
            &&& payload.len() > 0 ==> k == 0 && t.skip(n + 2) == payload
        }),
{
    let t = request_tail(addr, payload, padding);
    let h = request_head(now, t.len());
    let n = addr.len() as int;
    assert(h.subrange(1, 9) =~= be64(now));
    crate::wire::lemma_be64_at(now, h, 1);
    assert(h.subrange(9, 11) =~= be16(t.len() as u16));
    lemma_be16_at(t.len() as u16, h, 9);
    assert(t.take(n) =~= addr);
    if payload.len() == 0 {
        assert(t.subrange(n, n + 2) =~= be16(padding.len() as u16));
        lemma_be16_at(padding.len() as u16, t, n);
        assert(t.skip(n + 2) =~= padding);
    } else {
        assert(t.subrange(n, n + 2) =~= be16(0));
        lemma_be16_at(0, t, n);
        assert(t.skip(n + 2) =~= payload);
    }
}

/// A response is refused, each time for its own reason, that has another length or type, whose clock is more
/// than thirty seconds away in either direction, or that echoes another salt.
pub proof fn law_response_refused(kind: u8, ts: u64, echo: Seq<u8>, len: u16, salt: Seq<u8>, now: int, plain: Seq<u8>)
    requires
        echo.len() == salt.len(),
    ensures
        ({
            let r = response_header(seq![kind] + be64(ts) + echo + be16(len), salt, now);
            &&& kind != 1 ==> r is BadType
            &&& kind == 1 && (now > ts + 30 || ts > now + 30) ==> r is BadClock
            &&& kind == 1 && now <= ts + 30 && ts <= now + 30 && echo != salt ==> r is BadSalt
            &&& kind == 1 && now <= ts + 30 && ts <= now + 30 && echo == salt ==> r == Response::Len(len as int)
        }),
        plain.len() != salt.len() + 11 ==> response_header(plain, salt, now) is BadLength,
{
    let p = seq![kind] + be64(ts) + echo + be16(len);
    let k = salt.len() as int;
    assert(p.len() == 11 + k);
    assert(p.subrange(1, 9) =~= be64(ts));
    crate::wire::lemma_be64_at(ts, p, 1);
    assert(p.subrange(9, 9 + k) =~= echo);
    assert(p.subrange(9 + k, 11 + k) =~= be16(len));
    lemma_be16_at(len, p, 9 + k);
}

/// Data are sealed in chunks of sixteen thousand three hundred and eighty-three bytes, the last one as long
/// as what is left.
pub proof fn law_chunk_sizes(data: Seq<u8>)
    ensures
        data.len() <= 16383 ==> chunk_len(data) == data.len(),
        data.len() > 16383 ==> chunk_len(data) == 16383,
{
}

/// The address of a server is its name and its port; a name with a colon that has no brackets gets them.
pub proof fn law_server_address(server: Seq<char>, port: u16)
    ensures
        !server.contains(':') ==> server_addr(server, port) == server + seq![':'] + decimal(port as nat),
        server.contains(':') && server[0] == '[' ==> server_addr(server, port) == server + seq![':'] + decimal(port as nat),
        server.contains(':') && server[0] != '[' ==> crate::resolver::host_and_port(server_addr(server, port)) == Some(
            (server, port),
        ),
{
    if server.contains(':') && server[0] != '[' {
        let d = decimal(port as nat);
        crate::resolver::law_target_split(server, port);
        assert(seq!['['] + server + seq![']', ':'] + d =~= seq!['['] + server + seq![']'] + seq![':'] + d);
    }
}

/// The key of a session comes of the shared key and the salt, in the way of the method's edition: the
/// methods of the edition of 2022 have their own context, the others the information `ss-subkey`.
pub proof fn law_session_keys(m: Method, master: Seq<u8>, salt: Seq<u8>)
    ensures
        m is Aes128Gcm || m is Aes256Gcm || m is Chacha20IetfPoly1305 ==> session_key(m, master, salt) == hkdf_sha1(
            salt,
            master,
            Seq::new(9, |i: int| "ss-subkey"@[i] as u8),
            m.key_size(),
        ),
        m is Ss2022Aes128Gcm || m is Ss2022Aes256Gcm || m is Ss2022Chacha20Poly1305 ==> session_key(m, master, salt)
            == blake3_kdf("shadowsocks 2022 session subkey"@, master + salt, m.key_size()),
{
    reveal_strlit("ss-subkey");
    assert(Seq::new(9, |i: int| "ss-subkey"@[i] as u8) =~= subkey_info());
}

/// A decoded key is taken exactly where it has the length asked for, and then as it is. Else the error says
/// how long it is and how long it should be, or what is wrong with its text.
pub proof fn law_keys_taken(r: Result<Vec<u8>, SsError>, k: Seq<u8>, fault: Seq<char>, key_len: nat)
    ensures
        psk_judged(r, Ok(k), key_len) && k.len() == key_len ==> (r matches Ok(v) && v@ == k),
        psk_judged(r, Ok(k), key_len) && k.len() != key_len ==> (r matches Err(SsError::KeyLength(got, want)) && got
            == k.len() && want == key_len),
        psk_judged(r, Err(fault), key_len) ==> (r matches Err(SsError::KeyNotBase64(x)) && x@ == fault),
{
}

/// The error for a target names what is wrong with it: the whole target where it has no port, or else the
/// text that is no port. A target with a name and a port gives none.
pub proof fn law_target_faults(a: Seq<char>, b: Seq<char>, port: u16, e: SsError)
    requires
        !b.contains(':'),
    ensures
        target_error(b, e) ==> (e matches SsError::MissingPort(x) && x@ == b),
        uint_text(b, 65535) is None && target_error(a + seq![':'] + b, e) ==> (e matches SsError::BadPort(x) && x@ == b),
        b.len() > 0 && b[0] != '[' && b.last() != ']' && encode_utf8(b).len() > 255 && ipv4_text(b) is None && ipv6_text(
            b,
        ) is None && target_error(b + seq![':'] + decimal(port as nat), e) ==> (e matches SsError::BadHost(x) && x@ == b),
        b.len() > 0 && b[0] != '[' && b.last() != ']' && 0 < encode_utf8(b).len() <= 255 ==> !target_error(
            b + seq![':'] + decimal(port as nat),
            e,
        ),
{
    law_target_without_port(a, b);
    if b.len() > 0 && b[0] != '[' && b.last() != ']' {
        law_target_encoded(seq![], b, seq![], port);
        assert(Seq::<char>::empty() + b + Seq::<char>::empty() + seq![':'] + decimal(port as nat) =~= b + seq![':'] + decimal(
            port as nat,
        ));
    }
}

/// A reader gives out a sealed stream chunk by chunk: eighteen bytes hold the length of a chunk and as many
/// more as it says, with a tag, the chunk; that is the beginning of what the whole stream opens to, and what
/// is left of the stream opens to the rest. Then the next length is waited for.
pub proof fn law_chunks_read(
    a: Aead,
    key: Seq<u8>,
    nonce: Seq<u8>,
    wire: Seq<u8>,
    salt: Seq<u8>,
    now: int,
    r: SsReader,
    s: SsReader,
)
    requires
        wire.len() > 0,
        opened_stream(a, key, nonce, wire) is Some,
        r.want is Length,
        s.want == after_opening(Want::Length, aead_opened(a, key, nonce, wire.take(r.wanted())), salt, now).1,
    ensures
        after_opening(Want::Length, aead_opened(a, key, nonce, wire.take(r.wanted())), salt, now).0 is More,
        ({
            let i = r.wanted();
            let j = i + s.wanted();
            let x = after_opening(s.want, aead_opened(a, key, bumped(nonce), wire.subrange(i, j)), salt, now);
            &&& i < j <= wire.len()
            &&& !may_end(s.want)
            &&& x.1 is Length && may_end(x.1)
            &&& x.0 matches ReadView::Data(d) && opened_stream(a, key, bumped(bumped(nonce)), wire.skip(j)) matches Some(t)
                && opened_stream(a, key, nonce, wire) == Some(d + t)
        }),
{
}

/// What does not open fails, and so does a length of nothing or beyond the longest chunk.
pub proof fn law_broken_chunks(want: Want, l: Seq<u8>, salt: Seq<u8>, now: int)
    ensures
        after_opening(want, None, salt, now).0 is Failed,
        u16_at(l, 0) == 0 || u16_at(l, 0) > 16383 ==> after_opening(Want::Length, Some(l), salt, now).0 is Failed,
{
}

/// Behind the salt comes the header of a response, in the edition of 2022, and else the first chunk. A header
/// that answers the request says how long the first payload is, which is given out as it is; another header
/// fails.
pub proof fn law_response_begins(m: Method, plain: Seq<u8>, first: Seq<u8>, salt: Seq<u8>, now: int, n: u16)
    ensures
        after_salt(m) is Header <==> m is Ss2022Aes128Gcm || m is Ss2022Aes256Gcm || m is Ss2022Chacha20Poly1305,
        after_salt(m) is Length <==> m is Aes128Gcm || m is Aes256Gcm || m is Chacha20IetfPoly1305,
        response_header(plain, salt, now) == Response::Len(n as int) && n > 0 ==> after_opening(
            Want::Header,
            Some(plain),
            salt,
            now,
        ) == (ReadView::More, Want::First(n as usize)),
        response_header(plain, salt, now) == Response::Len(0) ==> after_opening(Want::Header, Some(plain), salt, now) == (
            ReadView::Data(seq![]),
            Want::Length,
        ),
        !(response_header(plain, salt, now) is Len) ==> after_opening(Want::Header, Some(plain), salt, now).0 is Failed,
        after_opening(Want::First(n as usize), Some(first), salt, now) == (ReadView::Data(first), Want::Length),
        !may_end(Want::First(n as usize)),
        may_end(after_salt(m)) && may_end(Want::Salt),
{
}

} // verus!
