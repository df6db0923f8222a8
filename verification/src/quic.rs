//! QUIC connections: the pinned key of a server, the windows of a connection, the port it is made
//! from, and when it has to be made again.

use vstd::prelude::*;
use vstd::utf8::encode_utf8;

use crate::b64::{base64_url_encoded, encode_url};
use crate::chance::{random_bytes, random_u16, random_usize};
use crate::text::{chars_of, parse_uint, same_text, uint_text};

verus! {

/// The length of a pin in characters.
pub const PIN_LEN: usize = 43;

/// The largest number that the protocol can express.
pub const VARINT_MAX: u64 = 4_611_686_018_427_387_903;

/// How often another source port is tried.
pub const PORT_TRIES: usize = 8;

/// How many streams a connection may hold.
pub const MAX_STREAMS: u32 = 2048;

/// The bytes of a megabyte.
pub const MEGABYTE: u64 = 1_048_576;

/// The SHA-256 digest of bytes, as `sha2` computes it.
pub uninterp spec fn sha256_digest(b: Seq<u8>) -> Seq<u8>;

/// The key that a certificate holds, as `webpki` reads it; `None` where it is no certificate.
pub uninterp spec fn certificate_key(der: Seq<u8>) -> Option<Seq<u8>>;

/// Calls `Digest::digest` of `sha2::Sha256`. A digest has thirty-two bytes.
#[verifier::external_body]
fn sha256(b: &[u8]) -> (r: [u8; 32])
    ensures
        r@ == sha256_digest(b@),
{
    <sha2::Sha256 as sha2::Digest>::digest(b).into()
}

/// Calls `EndEntityCert::try_from` and `subject_public_key_info` of `webpki`: the encoded key of a
/// certificate.
#[verifier::external_body]
fn read_certificate_key(der: &[u8]) -> (r: Option<Vec<u8>>)
    ensures
        match r {
            Some(k) => certificate_key(der@) == Some(k@),
            None => certificate_key(der@) is None,
        },
{
    let cert: rustls::pki_types::CertificateDer<'_> = rustls::pki_types::CertificateDer::from(der);
    match webpki::EndEntityCert::try_from(&cert) {
        Ok(c) => Some(c.subject_public_key_info().as_ref().to_vec()),
        Err(_) => None,
    }
}

/// Calls `ConstantTimeEq::ct_eq` of `subtle` on two slices: whether they are of the same length and
/// hold the same bytes.
#[verifier::external_body]
fn equal_in_constant_time(a: &[u8], b: &[u8]) -> (r: bool)
    ensures
        r == (a@ == b@),
{
    subtle::ConstantTimeEq::ct_eq(a, b).unwrap_u8() == 1
}

/// The pin of a key: its digest in URL-safe base64.
pub open spec fn pin_of(spki: Seq<u8>) -> Seq<char> {
    base64_url_encoded(sha256_digest(spki))
}

/// The pin of a key.
pub fn spki_pin(spki_der: &[u8]) -> (r: String)
    ensures
        r@ == pin_of(spki_der@),
{
    let d: [u8; 32] = sha256(spki_der);
    encode_url(d.as_slice())
}

/// The key of a server: its private part in PKCS #8, and its public part as it stands in a certificate.
pub struct ServerKey {
    pub private_der: Vec<u8>,
    pub public_der: Vec<u8>,
}

/// The private and the public part of the key that `rcgen` reads from a text; where it reads none, what
/// it says of the fault.
pub uninterp spec fn pem_key(pem: Seq<char>) -> Result<(Seq<u8>, Seq<u8>), Seq<char>>;

/// The parts of a key, or what is said of the fault.
pub open spec fn key_parts(r: Result<ServerKey, String>) -> Result<(Seq<u8>, Seq<u8>), Seq<char>> {
    match r {
        Ok(k) => Ok((k.private_der@, k.public_der@)),
        Err(e) => Err(e@),
    }
}

/// Calls `KeyPair::from_pem` of `rcgen`, and `serialize_der` and `public_key_der` on the key pair. An
/// error is handed on as the text that it displays. All of it depends on the text alone.
#[verifier::external_body]
fn read_pem_key(pem: &str) -> (r: Result<ServerKey, String>)
    ensures
        key_parts(r) == pem_key(pem@),
{
    match rcgen::KeyPair::from_pem(pem) {
        Ok(k) => Ok(ServerKey { private_der: k.serialize_der(), public_der: k.public_key_der() }),
        Err(e) => Err(e.to_string()),
    }
}

/// Calls `KeyPair::generate` of `rcgen`, and `serialize_der`, `public_key_der` and `serialize_pem` on the
/// key pair. The key rests on chance, as does whether the system has random bytes for it; claimed is that
/// the text is read back as the same key.
#[verifier::external_body]
fn new_pem_key() -> (r: Result<(ServerKey, String), String>)
    ensures
        r matches Ok(x) ==> pem_key(x.1@) == key_parts(Ok(x.0)),
{
    match rcgen::KeyPair::generate() {
        Ok(k) => Ok(
            (ServerKey { private_der: k.serialize_der(), public_der: k.public_key_der() }, k.serialize_pem()),
        ),
        Err(e) => Err(e.to_string()),
    }
}

/// What was found where the key of a server is kept.
pub enum KeyFile {
    /// There is no file.
    Missing,
    /// There is one that cannot be read: why.
    Unreadable(String),
    /// There is one with this text.
    Text(String),
}

/// What is done about the key of a server.
pub enum KeyStep {
    /// A new key is made.
    Generate,
    /// The file cannot be read: why.
    Unreadable(String),
    /// The file holds no key: what is wrong with it.
    Corrupt(String),
    /// The key of the file is used.
    Use(ServerKey),
}

/// What is done about the key of a server. A new one is made only where there is no file; a file that is
/// there but cannot be read, or holds no key, is an error.
pub fn load_key(f: KeyFile) -> (r: KeyStep)
    ensures
        match f {
            KeyFile::Missing => r is Generate,
            KeyFile::Unreadable(t) => r matches KeyStep::Unreadable(x) && x == t,
            KeyFile::Text(t) => match pem_key(t@) {
                Ok(p) => r matches KeyStep::Use(k) && k.private_der@ == p.0 && k.public_der@ == p.1,
                Err(e) => r matches KeyStep::Corrupt(x) && x@ == e,
            },
        },
{
    match f {
        KeyFile::Missing => KeyStep::Generate,
        KeyFile::Unreadable(t) => KeyStep::Unreadable(t),
        KeyFile::Text(t) => match read_pem_key(t.as_str()) {
            Ok(k) => KeyStep::Use(k),
            Err(e) => KeyStep::Corrupt(e),
        },
    }
}

/// Why a server has no key.
#[derive(PartialEq, Eq, Debug)]
pub enum KeyError {
    /// The file cannot be read: why.
    Unreadable(String),
    /// The file holds no key: what is wrong with it.
    Corrupt(String),
    /// No key could be made: why.
    NotGenerated(String),
}

/// The key of a server: that of the file, or a new one where there is no file. The text of a new key
/// comes with it and is to be written to the file, from which the same key is then read.
pub fn load_or_generate_key(f: KeyFile) -> (r: Result<(ServerKey, Option<String>), KeyError>)
    ensures
        match f {
            KeyFile::Missing => match r {
                Ok(x) => x.1 matches Some(t) && pem_key(t@) == key_parts(Ok(x.0)),
                Err(e) => e is NotGenerated,
            },
            KeyFile::Unreadable(t) => r matches Err(KeyError::Unreadable(x)) && x == t,
            KeyFile::Text(t) => match pem_key(t@) {
                Ok(p) => r matches Ok(x) && x.0.private_der@ == p.0 && x.0.public_der@ == p.1 && x.1 is None,
                Err(e) => r matches Err(KeyError::Corrupt(x)) && x@ == e,
            },
        },
{
    match load_key(f) {
        KeyStep::Use(k) => Ok((k, None)),
        KeyStep::Unreadable(t) => Err(KeyError::Unreadable(t)),
        KeyStep::Corrupt(t) => Err(KeyError::Corrupt(t)),
        KeyStep::Generate => match new_pem_key() {
            Ok(x) => Ok((x.0, Some(x.1))),
            Err(t) => Err(KeyError::NotGenerated(t)),
        },
    }
}

/// A character of URL-safe base64.
pub open spec fn pin_char(c: char) -> bool {
    ('A' <= c <= 'Z') || ('a' <= c <= 'z') || ('0' <= c <= '9') || c == '-' || c == '_'
}

/// A text has the form of a pin.
pub open spec fn pin_form(s: Seq<char>) -> bool {
    s.len() == PIN_LEN && forall|i: int| 0 <= i < s.len() ==> pin_char(#[trigger] s[i])
}

/// Whether a text has the form of a pin.
pub fn is_valid_quic_pin(pin: &str) -> (r: bool)
    ensures
        r == pin_form(pin@),
{
    let c: Vec<char> = chars_of(pin);
    if c.len() != PIN_LEN {
        return false;
    }
    let mut i: usize = 0;
    while i < c.len()
        invariant
            i <= c@.len(),
            c@ == pin@,
            c@.len() == PIN_LEN,
            forall|k: int| 0 <= k < i ==> pin_char(#[trigger] c@[k]),
        decreases c@.len() - i,
    {
        let x: char = c[i];
        if !(('A' <= x && x <= 'Z') || ('a' <= x && x <= 'z') || ('0' <= x && x <= '9') || x == '-' || x == '_') {
            assert(!pin_char(c@[i as int]));
            return false;
        }
        i = i + 1;
    }
    true
}

/// Why the certificate of a server was rejected.
#[derive(Clone, Copy, PartialEq, Eq, Structural, Debug)]
pub enum CertError {
    BadEncoding,
    PinMismatch,
}

/// Accepts servers by the pin of their key alone.
#[derive(Debug)]
pub struct PinnedVerifier {
    pub pin: String,
}

/// How a certificate with this key is judged.
pub open spec fn key_judged(key: Option<Seq<u8>>, pin: Seq<char>) -> Result<(), CertError> {
    match key {
        None => Err(CertError::BadEncoding),
        Some(k) => if encode_utf8(pin_of(k)) == encode_utf8(pin) {
            Ok(())
        } else {
            Err(CertError::PinMismatch)
        },
    }
}

/// An optional key as bytes.
pub open spec fn opt_key_bytes(k: Option<Vec<u8>>) -> Option<Seq<u8>> {
    match k {
        Some(v) => Some(v@),
        None => None,
    }
}

impl PinnedVerifier {
    /// Accepts the server whose key has this pin.
    pub fn new(pin: String) -> (r: PinnedVerifier)
        ensures
            r.pin == pin,
    {
        PinnedVerifier { pin }
    }

    /// Judges the key of a certificate, where it has one.
    pub fn judge_key(&self, key: Option<Vec<u8>>) -> (r: Result<(), CertError>)
        ensures
            r == key_judged(opt_key_bytes(key), self.pin@),
    {
        match key {
            None => Err(CertError::BadEncoding),
            Some(k) => {
                let actual: String = spki_pin(k.as_slice());
                let a: &[u8] = actual.as_str().as_bytes();
                let b: &[u8] = self.pin.as_str().as_bytes();
                if a.len() != b.len() || !equal_in_constant_time(a, b) {
                    return Err(CertError::PinMismatch);
                }
                Ok(())
            },
        }
    }

    /// Judges the certificate of a server: the key in it must have the pin.
    pub fn verify_server_cert(&self, end_entity: &[u8]) -> (r: Result<(), CertError>)
        ensures
            r == key_judged(certificate_key(end_entity@), self.pin@),
    {
        let key: Option<Vec<u8>> = read_certificate_key(end_entity);
        self.judge_key(key)
    }
}

/// A certificate is accepted exactly where the pin of its key is the one that was configured.
pub proof fn law_pin_decides(key: Seq<u8>, pin: Seq<char>)
    ensures
        key_judged(Some(key), pin) is Ok <==> pin_of(key) == pin,
{
    vstd::utf8::encode_utf8_decode_utf8(pin_of(key));
    vstd::utf8::encode_utf8_decode_utf8(pin);
}

/// Why no connection is made.
#[derive(Clone, Copy, PartialEq, Eq, Structural, Debug)]
pub enum PinError {
    Missing,
    Malformed,
}

/// Whether there is a pin to make a connection with. Without one no connection is made.
pub fn check_pin(pin: &Option<String>) -> (r: Result<(), PinError>)
    ensures
        r == match *pin {
            None => Err::<(), PinError>(PinError::Missing),
            Some(p) => if pin_form(p@) {
                Ok(())
            } else {
                Err(PinError::Malformed)
            },
        },
{
    match pin {
        None => Err(PinError::Missing),
        Some(p) => {
            if is_valid_quic_pin(p.as_str()) {
                Ok(())
            } else {
                Err(PinError::Malformed)
            }
        },
    }
}

/// The source ports below a destination port: the first one, and how many there are.
pub open spec fn low_ports(dst: u16) -> (int, int) {
    if dst > 1024 {
        (1024, dst - 1024)
    } else {
        (1, dst - 1)
    }
}

/// The source ports that are tried, where low ones are wanted: the first one, and how many there are.
pub fn source_ports(dst_port: u16, low_src_port: bool) -> (r: Option<(u16, u16)>)
    ensures
        match r {
            Some(x) => low_src_port && dst_port > 1 && (x.0 as int, x.1 as int) == low_ports(dst_port),
            None => !low_src_port || dst_port <= 1,
        },
{
    if !low_src_port || dst_port <= 1 {
        return None;
    }
    if dst_port > 1024 {
        Some((1024, dst_port - 1024))
    } else {
        Some((1, dst_port - 1))
    }
}

/// Draws a source port that is tried, where low ones are wanted.
pub fn draw_source_port(dst_port: u16, low_src_port: bool) -> (r: Option<u16>)
    ensures
        match r {
            Some(p) => low_src_port && dst_port > 1 && low_ports(dst_port).0 <= p < dst_port,
            None => !low_src_port || dst_port <= 1,
        },
{
    match source_ports(dst_port, low_src_port) {
        None => None,
        Some(x) => Some(random_u16(x.0, x.0 + (x.1 - 1))),
    }
}

/// A source port that is tried is always lower than the port it connects to.
pub proof fn law_source_port_lower(dst: u16, pick: int)
    requires
        dst > 1,
        0 <= pick < low_ports(dst).1,
    ensures
        1 <= low_ports(dst).0 + pick < dst,
{
}

/// The length of the datagram that precedes a connection: eight bytes and up to fifty-six more.
pub fn junk_len(extra: usize) -> (r: usize)
    requires
        extra <= 56,
    ensures
        r == 8 + extra,
{
    8 + extra
}

/// Draws the datagram that precedes a connection.
pub fn draw_junk() -> (r: Vec<u8>)
    ensures
        8 <= r@.len() <= 64,
{
    random_bytes(junk_len(random_usize(0, 56)))
}

/// The windows of a connection: of one stream, and of all.
#[derive(Clone, Copy, PartialEq, Eq, Structural, Debug)]
pub struct Windows {
    pub stream: u64,
    pub receive: u64,
    pub send: u64,
}

/// A number that the protocol can express.
pub open spec fn varint(n: int) -> int {
    if n > VARINT_MAX {
        VARINT_MAX as int
    } else {
        n
    }
}

/// The window of one stream in bytes, for a number of megabytes.
pub open spec fn stream_window(mb: int) -> int {
    if mb < 1 {
        MEGABYTE as int
    } else {
        mb * MEGABYTE
    }
}

/// Four times a window, as far as a number goes.
pub open spec fn four_times(w: int) -> int {
    if w * 4 > u64::MAX {
        u64::MAX as int
    } else {
        w * 4
    }
}

/// The windows for a number of megabytes per stream; all streams together get four times as much.
pub fn windows(mb: u64) -> (r: Windows)
    requires
        mb * MEGABYTE <= u64::MAX,
    ensures
        r.stream == varint(stream_window(mb as int)),
        r.receive == varint(four_times(stream_window(mb as int))),
        r.send == four_times(stream_window(mb as int)),
{
    let s: u64 = if mb < 1 {
        MEGABYTE
    } else {
        mb * MEGABYTE
    };
    let all: u64 = match s.checked_mul(4) {
        Some(x) => x,
        None => u64::MAX,
    };
    Windows {
        stream: if s > VARINT_MAX {
            VARINT_MAX
        } else {
            s
        },
        receive: if all > VARINT_MAX {
            VARINT_MAX
        } else {
            all
        },
        send: all,
    }
}

/// The megabytes per stream: those that the environment asks for, where it names a number.
pub fn choose_window(asked: &Option<String>, configured: u64) -> (r: u64)
    ensures
        r == match *asked {
            Some(t) => match uint_text(t@, 0xffff_ffff_ffff_ffff) {
                Some(n) => n,
                None => configured as int,
            },
            None => configured as int,
        },
{
    match asked {
        Some(t) => {
            let c: Vec<char> = chars_of(t.as_str());
            match parse_uint(c.as_slice(), u64::MAX) {
                Some(n) => n,
                None => configured,
            }
        },
        None => configured,
    }
}

/// Whether the congestion control for lossy links is used, by what the environment asks for.
pub open spec fn erasure_wanted(asked: Option<Seq<char>>, configured: bool) -> bool {
    match asked {
        Some(t) => if t == "off"@ || t == "bbr"@ || t == "default"@ || t == "stock"@ {
            false
        } else if t == "erasure"@ || t == "on"@ {
            true
        } else {
            configured
        },
        None => configured,
    }
}

/// Whether the congestion control for lossy links is used.
pub fn choose_erasure(asked: &Option<String>, configured: bool) -> (r: bool)
    ensures
        r == erasure_wanted(crate::text::opt_text(*asked), configured),
{
    match asked {
        Some(t) => {
            let t: &str = t.as_str();
            if same_text(t, "off") || same_text(t, "bbr") || same_text(t, "default") || same_text(t, "stock") {
                false
            } else if same_text(t, "erasure") || same_text(t, "on") {
                true
            } else {
                configured
            }
        },
        None => configured,
    }
}

/// The connection that all streams share: whether there is an endpoint, and the number of the
/// connection.
#[derive(Clone, Copy, PartialEq, Eq, Structural, Debug)]
pub struct QuicMux {
    pub endpoint: bool,
    pub conn: Option<u64>,
}

/// What has to be done before a stream can be opened.
#[derive(Clone, Copy, PartialEq, Eq, Structural, Debug)]
pub enum MuxStep {
    /// No connection may be made.
    Refuse(PinError),
    /// An endpoint has to be made.
    MakeEndpoint,
    /// A connection has to be made.
    Dial,
    /// A stream can be opened on this connection.
    Open(u64),
}

/// What has to be done next to open a stream.
pub open spec fn mux_step(m: QuicMux, pin: Option<String>, closed: bool) -> MuxStep {
    if !m.endpoint {
        match pin {
            None => MuxStep::Refuse(PinError::Missing),
            Some(p) => if pin_form(p@) {
                MuxStep::MakeEndpoint
            } else {
                MuxStep::Refuse(PinError::Malformed)
            },
        }
    } else {
        match m.conn {
            None => MuxStep::Dial,
            Some(c) => if closed {
                MuxStep::Dial
            } else {
                MuxStep::Open(c)
            },
        }
    }
}

impl QuicMux {
    /// Neither an endpoint nor a connection.
    pub fn new() -> (r: QuicMux)
        ensures
            r == (QuicMux { endpoint: false, conn: None }),
    {
        QuicMux { endpoint: false, conn: None }
    }

    /// What has to be done next to open a stream. `closed` says whether the connection that there is
    /// has been closed. The pin is looked at before anything is sent.
    pub fn next(&self, pin: &Option<String>, closed: bool) -> (r: MuxStep)
        ensures
            r == mux_step(*self, *pin, closed),
    {
        if !self.endpoint {
            return match check_pin(pin) {
                Ok(_) => MuxStep::MakeEndpoint,
                Err(e) => MuxStep::Refuse(e),
            };
        }
        match self.conn {
            None => MuxStep::Dial,
            Some(c) => {
                if closed {
                    MuxStep::Dial
                } else {
                    MuxStep::Open(c)
                }
            },
        }
    }

    /// Notes that no stream could be opened on a connection; another one that has been made since is
    /// kept.
    pub fn open_failed(&mut self, conn: u64)
        ensures
            final(self).endpoint == old(self).endpoint,
            final(self).conn == (if old(self).conn == Some(conn) {
                None
            } else {
                old(self).conn
            }),
    {
        match self.conn {
            Some(c) => {
                if c == conn {
                    self.conn = None;
                }
            },
            None => {},
        }
    }
}

/// A pin has forty-three characters, each a letter, a digit, a hyphen or an underscore.
pub proof fn law_pin_shape(s: Seq<char>, i: int)
    ensures
        s.len() != 43 ==> !pin_form(s),
        0 <= i < s.len() && !('A' <= s[i] <= 'Z' || 'a' <= s[i] <= 'z' || '0' <= s[i] <= '9' || s[i] == '-' || s[i] == '_')
            ==> !pin_form(s),
        s.len() == 43 && (forall|j: int|
            0 <= j < 43 ==> 'A' <= #[trigger] s[j] <= 'Z' || 'a' <= s[j] <= 'z' || '0' <= s[j] <= '9' || s[j] == '-' || s[j]
                == '_') ==> pin_form(s),
{
    if s.len() == 43 && pin_form(s) && 0 <= i < s.len() {
        assert(pin_char(s[i]));
    }
}

/// A certificate that cannot be read, and one with another key, are rejected, each for its own reason.
pub proof fn law_wrong_keys_rejected(key: Seq<u8>, pin: Seq<char>)
    ensures
        key_judged(None, pin) == Err::<(), CertError>(CertError::BadEncoding),
        pin_of(key) != pin ==> key_judged(Some(key), pin) == Err::<(), CertError>(CertError::PinMismatch),
{
    law_pin_decides(key, pin);
}

/// Source ports are all those below the destination port, from 1024 on where that is possible.
pub proof fn law_source_ports_all(dst: u16, p: int)
    requires
        dst > 1,
    ensures
        ({
            let x = low_ports(dst);
            let least = if dst > 1024 {
                1024int
            } else {
                1
            };
            x.0 <= p < x.0 + x.1 <==> least <= p < dst
        }),
{
}

/// A stream has a window of as many megabytes as are asked for, and of one at least; four times as much is
/// allowed for all of them together, as far as a number goes.
pub proof fn law_windows(mb: u64)
    ensures
        mb >= 1 ==> stream_window(mb as int) == 1048576 * mb,
        stream_window(0) == 1048576,
        mb <= 0x100_0000 ==> four_times(stream_window(mb as int)) == 4 * stream_window(mb as int) && varint(
            four_times(stream_window(mb as int)),
        ) == 4 * stream_window(mb as int) && varint(stream_window(mb as int)) == stream_window(mb as int),
        forall|n: int| #![auto] varint(n) <= n && varint(n) <= 4_611_686_018_427_387_903 && (n <= 4_611_686_018_427_387_903
            ==> varint(n) == n),
        forall|n: int| #![auto] four_times(n) <= 0xffff_ffff_ffff_ffff && (4 * n <= 0xffff_ffff_ffff_ffff ==> four_times(n)
            == 4 * n) && (4 * n > 0xffff_ffff_ffff_ffff ==> four_times(n) == 0xffff_ffff_ffff_ffff),
{
}

/// Whether lossy links are reckoned with is what is configured, unless one of six words says otherwise.
pub proof fn law_erasure_words(t: Seq<char>, configured: bool)
    ensures
        erasure_wanted(None, configured) == configured,
        erasure_wanted(Some("erasure"@), configured) && erasure_wanted(Some("on"@), configured),
        t == "off"@ || t == "bbr"@ || t == "default"@ || t == "stock"@ ==> !erasure_wanted(Some(t), configured),
        t != "off"@ && t != "bbr"@ && t != "default"@ && t != "stock"@ && t != "erasure"@ && t != "on"@ ==> erasure_wanted(
            Some(t),
            configured,
        ) == configured,
{
    reveal_strlit("off");
    reveal_strlit("bbr");
    reveal_strlit("default");
    reveal_strlit("stock");
    reveal_strlit("erasure");
    reveal_strlit("on");
    assert("erasure"@.len() == 7 && "default"@.len() == 7);
    assert("erasure"@[0] == 'e' && "default"@[0] == 'd');
    assert("on"@.len() == 2);
}

/// An endpoint is made only where the pin has its form; without one, or with a malformed one, nothing is
/// sent. With an endpoint, a stream is opened on the connection that there is unless that was closed, and
/// else a connection is made.
pub proof fn law_mux_steps(m: QuicMux, pin: Option<String>, closed: bool, c: u64)
    ensures
        mux_step(m, pin, closed) is MakeEndpoint <==> !m.endpoint && (pin matches Some(p) && pin_form(p@)),
        mux_step(m, pin, closed) == MuxStep::Refuse(PinError::Missing) <==> !m.endpoint && pin is None,
        mux_step(m, pin, closed) == MuxStep::Refuse(PinError::Malformed) <==> !m.endpoint && (pin matches Some(p)
            && !pin_form(p@)),
        mux_step(m, pin, closed) is Dial <==> m.endpoint && (m.conn is None || closed),
        mux_step(m, pin, closed) == MuxStep::Open(c) <==> m.endpoint && m.conn == Some(c) && !closed,
{
}

} // verus!
