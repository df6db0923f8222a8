//! WireGuard: keys and peer configuration, and the decisions of streams inside a tunnel.

use vstd::prelude::*;

use crate::b64::{base64_decoded, decode_standard, decoded_view};
use crate::ip::IpAddr;
use crate::text::{chars_of, decimal, push_decimal, push_text, string_of, trim, trimmed};
use crate::wire::copy_32;

verus! {

/// The largest datagram.
pub const MAX_DATAGRAM: usize = 65535;

/// What WireGuard adds to a packet.
pub const WG_DATA_OVERHEAD: usize = 32;

/// The largest packet that still fits a datagram.
pub const MAX_MTU: usize = 65503;

/// A peer.
#[derive(Debug)]
pub struct WgConfig {
    pub private_key: [u8; 32],
    pub peer_public_key: [u8; 32],
    pub preshared_key: Option<[u8; 32]>,
    pub endpoint: String,
    pub address: IpAddr,
    pub mtu: usize,
    pub persistent_keepalive: Option<u16>,
    pub dns: Option<IpAddr>,
}

/// Why a key was rejected.
#[derive(PartialEq, Eq, Debug)]
pub enum WgKeyError {
    /// It is no base64: what the decoder says of it.
    NotBase64(String),
    /// It has this many bytes.
    Length(usize),
}

/// Why a key was rejected, as a value.
pub enum WgKeyFault {
    NotBase64(Seq<char>),
    Length(usize),
}

impl View for WgKeyError {
    type V = WgKeyFault;

    open spec fn view(&self) -> WgKeyFault {
        match *self {
            WgKeyError::NotBase64(t) => WgKeyFault::NotBase64(t@),
            WgKeyError::Length(n) => WgKeyFault::Length(n),
        }
    }
}

/// What the user is told of a rejected key; `what` names the key.
pub open spec fn key_error_text(e: WgKeyFault, what: Seq<char>) -> Seq<char> {
    match e {
        WgKeyFault::NotBase64(t) => "WireGuard "@ + what + " 必须是 base64 编码的密钥: "@ + t,
        WgKeyFault::Length(n) => "WireGuard "@ + what + " 长度不对: base64 解码后 "@ + decimal(n as nat)
            + " 字节, 应为 32 字节 (标准 wg genkey/pubkey 输出的密钥)"@,
    }
}

impl WgKeyError {
    /// What the user is told; `what` names the key.
    pub fn message(&self, what: &str) -> (r: String)
        ensures
            r@ == key_error_text(self@, what@),
    {
        let mut out: Vec<char> = Vec::new();
        push_text(&mut out, "WireGuard ");
        push_text(&mut out, what);
        match self {
            WgKeyError::NotBase64(t) => {
                push_text(&mut out, " 必须是 base64 编码的密钥: ");
                push_text(&mut out, t.as_str());
            },
            WgKeyError::Length(n) => {
                push_text(&mut out, " 长度不对: base64 解码后 ");
                push_decimal(&mut out, *n as u64);
                push_text(&mut out, " 字节, 应为 32 字节 (标准 wg genkey/pubkey 输出的密钥)");
            },
        }
        assert(out@ =~= key_error_text(self@, what@));
        string_of(out.as_slice())
    }
}

/// A decoded key: exactly thirty-two bytes.
pub open spec fn key_of(decoded: Result<Seq<u8>, Seq<char>>) -> Result<Seq<u8>, WgKeyFault> {
    match decoded {
        Err(t) => Err(WgKeyFault::NotBase64(t)),
        Ok(k) => if k.len() == 32 {
            Ok(k)
        } else {
            Err(WgKeyFault::Length(k.len() as usize))
        },
    }
}

/// The bytes of a key.
pub open spec fn key_view(r: Result<[u8; 32], WgKeyError>) -> Result<Seq<u8>, WgKeyFault> {
    match r {
        Ok(k) => Ok(k@),
        Err(e) => Err(e@),
    }
}

/// Judges a decoded key.
pub fn check_wg_key(decoded: Result<Vec<u8>, String>) -> (r: Result<[u8; 32], WgKeyError>)
    ensures
        key_view(r) == key_of(decoded_view(decoded)),
{
    match decoded {
        Err(t) => Err(WgKeyError::NotBase64(t)),
        Ok(k) => {
            if k.len() != 32 {
                return Err(WgKeyError::Length(k.len()));
            }
            let a: [u8; 32] = copy_32(k.as_slice(), 0);
            assert(a@ =~= k@);
            Ok(a)
        },
    }
}

/// Decodes a key: base64, white space around it ignored, and exactly thirty-two bytes. `what` names the
/// key to the user.
pub fn decode_wg_key(b64: &str, what: &str) -> (r: Result<[u8; 32], String>)
    ensures
        match r {
            Ok(k) => key_of(base64_decoded(trimmed(b64@))) == Ok::<Seq<u8>, WgKeyFault>(k@),
            Err(m) => key_of(base64_decoded(trimmed(b64@))) matches Err(e) && m@ == key_error_text(e, what@),
        },
{
    let c: Vec<char> = chars_of(b64);
    let t: String = string_of(trim(c.as_slice()));
    match check_wg_key(decode_standard(t.as_str())) {
        Ok(k) => Ok(k),
        Err(e) => Err(e.message(what)),
    }
}

/// The public key that belongs to a private key on Curve25519.
pub uninterp spec fn x25519_public(private: Seq<u8>) -> Seq<u8>;

/// Calls `PublicKey::from` on `StaticSecret::from` of `x25519-dalek`, as `boringtun` offers them.
#[verifier::external_body]
fn x25519_public_key(private: &[u8; 32]) -> (r: [u8; 32])
    ensures
        r@ == x25519_public(private@),
{
    boringtun::x25519::PublicKey::from(&boringtun::x25519::StaticSecret::from(*private)).to_bytes()
}

/// The handshake and cipher state of one peer.
#[verifier::external_type_specification]
#[verifier::external_body]
pub struct ExTunn(boringtun::noise::Tunn);

/// What the state of a peer is made from.
pub struct TunnParts {
    pub private_key: [u8; 32],
    pub peer_public_key: [u8; 32],
    pub preshared_key: Option<[u8; 32]>,
    pub keepalive: Option<u16>,
}

/// What the state of a peer holds for good: the keys, the interval of keepalives in seconds, zero for
/// none, and the number that all indices of its sessions begin with, which has twenty-four bits.
pub struct PeerSeed {
    pub private_key: Seq<u8>,
    pub peer_public_key: Seq<u8>,
    pub preshared_key: Option<Seq<u8>>,
    pub keepalive: u16,
    pub index: u32,
}

/// What is said of the state of a peer.
pub struct TunnView {
    /// What it was made from.
    pub seed: PeerSeed,
    /// There is no session, no handshake is under way, and no packet waits.
    pub fresh: bool,
    /// How often in a row an empty datagram still makes it give out one.
    pub left: nat,
}

/// What is said of a state of `boringtun`.
pub uninterp spec fn tunn_view(t: boringtun::noise::Tunn) -> TunnView;

/// The seconds between keepalives, zero for none.
pub open spec fn keepalive_secs(k: Option<u16>) -> u16 {
    match k {
        Some(s) => s,
        None => 0,
    }
}

/// A preshared key as a value.
pub open spec fn opt_key(k: Option<[u8; 32]>) -> Option<Seq<u8>> {
    match k {
        Some(b) => Some(b@),
        None => None,
    }
}

/// Calls `Tunn::new` of `boringtun` without a rate limiter. The state keeps the keys, the interval and
/// the lower twenty-four bits of the index, and begins without sessions, handshake or packets. Its
/// other contents, random in part, are left open. It fails where the system has no random bytes or
/// its clock stands before 1970.
#[verifier::external_body]
fn new_tunn(p: TunnParts, index: u32) -> (r: boringtun::noise::Tunn)
    ensures
        tunn_view(r).seed == (PeerSeed {
            private_key: p.private_key@,
            peer_public_key: p.peer_public_key@,
            preshared_key: opt_key(p.preshared_key),
            keepalive: keepalive_secs(p.keepalive),
            index: index % 0x100_0000,
        }),
        tunn_view(r).fresh,
        tunn_view(r).left == 0,
{
    boringtun::noise::Tunn::new(
        boringtun::x25519::StaticSecret::from(p.private_key),
        boringtun::x25519::PublicKey::from(p.peer_public_key),
        p.preshared_key,
        p.keepalive,
        index,
        None,
    )
}

impl WgConfig {
    /// What the state of the peer holds for good, with sessions that are numbered from an index.
    pub open spec fn seed(&self, index: u32) -> PeerSeed {
        PeerSeed {
            private_key: self.private_key@,
            peer_public_key: self.peer_public_key@,
            preshared_key: opt_key(self.preshared_key),
            keepalive: keepalive_secs(self.persistent_keepalive),
            index: index % 0x100_0000,
        }
    }

    /// The public key that belongs to the private one.
    pub fn public_key(&self) -> (r: [u8; 32])
        ensures
            r@ == x25519_public(self.private_key@),
    {
        x25519_public_key(&self.private_key)
    }

    /// The interval of keepalives in seconds; zero means none.
    pub fn keepalive(&self) -> (r: Option<u16>)
        ensures
            r == match self.persistent_keepalive {
                Some(k) => if k > 0 {
                    Some(k)
                } else {
                    None
                },
                None => None,
            },
    {
        match self.persistent_keepalive {
            Some(k) => if k > 0 {
                Some(k)
            } else {
                None
            },
            None => None,
        }
    }

    /// What the state of the peer is made from: the keys as they are, and the interval of keepalives.
    pub fn tunn_parts(&self) -> (r: TunnParts)
        ensures
            r.private_key == self.private_key,
            r.peer_public_key == self.peer_public_key,
            r.preshared_key == self.preshared_key,
            r.keepalive == match self.persistent_keepalive {
                Some(k) => if k > 0 {
                    Some(k)
                } else {
                    None
                },
                None => None,
            },
    {
        TunnParts {
            private_key: self.private_key,
            peer_public_key: self.peer_public_key,
            preshared_key: self.preshared_key,
            keepalive: self.keepalive(),
        }
    }

    /// Whether a packet of the configured size fits a datagram; otherwise what the user is told.
    pub fn check_mtu(&self) -> (r: Result<(), String>)
        ensures
            match r {
                Ok(_) => mtu_fits(self.mtu as int),
                Err(m) => !mtu_fits(self.mtu as int) && m@ == mtu_error_text(self.mtu as nat),
            },
    {
        if 0 < self.mtu && self.mtu <= MAX_MTU {
            return Ok(());
        }
        let mut out: Vec<char> = Vec::new();
        push_text(&mut out, "WireGuard mtu 非法: ");
        push_decimal(&mut out, self.mtu as u64);
        push_text(&mut out, " (须在 1..=");
        push_decimal(&mut out, MAX_MTU as u64);
        push_text(&mut out, "); 超限会让 boringtun 加密时 panic, 隧道静默失效。常用值 1420。");
        assert(out@ =~= mtu_error_text(self.mtu as nat));
        Err(string_of(out.as_slice()))
    }
}

/// A packet of this size fits a datagram.
pub open spec fn mtu_fits(mtu: int) -> bool {
    0 < mtu && mtu + WG_DATA_OVERHEAD <= MAX_DATAGRAM
}

/// What the user is told of a size that does not fit.
pub open spec fn mtu_error_text(mtu: nat) -> Seq<char> {
    "WireGuard mtu 非法: "@ + decimal(mtu) + " (须在 1..="@ + decimal(MAX_MTU as nat)
        + "); 超限会让 boringtun 加密时 panic, 隧道静默失效。常用值 1420。"@
}

/// The state machine of a peer before the handshake, made from the configured keys and interval for
/// the given session index.
pub fn build_tunn(cfg: &WgConfig, index: u32) -> (r: boringtun::noise::Tunn)
    ensures
        tunn_view(r).seed == cfg.seed(index),
        tunn_view(r).fresh,
        tunn_view(r).left == 0,
{
    new_tunn(cfg.tunn_parts(), index)
}

/// What to do with a read from a stream in the tunnel.
#[derive(Clone, Copy, PartialEq, Eq, Structural, Debug)]
pub enum StreamRead {
    Receive,
    Eof,
    Wait,
}

/// A read takes what is there; where nothing is there it waits, unless nothing can come any more.
pub fn stream_read(can_recv: bool, may_recv: bool) -> (r: StreamRead)
    ensures
        r is Receive <==> can_recv,
        r is Eof <==> !can_recv && !may_recv,
        r is Wait <==> !can_recv && may_recv,
{
    if can_recv {
        StreamRead::Receive
    } else if !may_recv {
        StreamRead::Eof
    } else {
        StreamRead::Wait
    }
}

/// What to do with a write to a stream in the tunnel.
#[derive(Clone, Copy, PartialEq, Eq, Structural, Debug)]
pub enum StreamWrite {
    BrokenPipe,
    Wait,
    Send,
}

/// A write fails where nothing can be sent any more, and waits while there is no room.
pub fn stream_write(may_send: bool, can_send: bool) -> (r: StreamWrite)
    ensures
        r is BrokenPipe <==> !may_send,
        r is Wait <==> may_send && !can_send,
        r is Send <==> may_send && can_send,
{
    if !may_send {
        StreamWrite::BrokenPipe
    } else if !can_send {
        StreamWrite::Wait
    } else {
        StreamWrite::Send
    }
}

/// How a connection in the tunnel stands while it is waited for.
#[derive(Clone, Copy, PartialEq, Eq, Structural, Debug)]
pub enum ConnectState {
    /// It is there.
    Established,
    /// It has been closed.
    Closed,
    /// Neither yet.
    Other,
}

/// What waiting for a connection comes to.
#[derive(Clone, Copy, PartialEq, Eq, Structural, Debug)]
pub enum ConnectStep {
    Ready,
    Refused,
    Wait,
}

/// What waiting for a connection comes to.
pub fn connect_step(s: ConnectState) -> (r: ConnectStep)
    ensures
        r == match s {
            ConnectState::Established => ConnectStep::Ready,
            ConnectState::Closed => ConnectStep::Refused,
            ConnectState::Other => ConnectStep::Wait,
        },
{
    match s {
        ConnectState::Established => ConnectStep::Ready,
        ConnectState::Closed => ConnectStep::Refused,
        ConnectState::Other => ConnectStep::Wait,
    }
}

/// A connection in the tunnel that several tasks may close: whether its socket is still there.
pub struct StreamLife {
    pub alive: bool,
}

impl StreamLife {
    /// A connection whose socket is there.
    pub fn new() -> (r: StreamLife)
        ensures
            r.alive,
    {
        StreamLife { alive: true }
    }

    /// Whether the socket may be touched to abort the connection: not once it has been removed.
    pub fn may_abort(&self) -> (r: bool)
        ensures
            r == self.alive,
    {
        self.alive
    }

    /// Whether the socket has to be removed now. It is removed once.
    pub fn finish(&mut self) -> (r: bool)
        ensures
            r == old(self).alive,
            !final(self).alive,
    {
        let was: bool = self.alive;
        self.alive = false;
        was
    }
}

/// A key is what was decoded, exactly where that has thirty-two bytes; else the reason says why not.
pub proof fn law_keys_judged(k: Seq<u8>, t: Seq<char>)
    requires
        k.len() <= usize::MAX,
    ensures
        k.len() == 32 ==> key_of(Ok(k)) == Ok::<Seq<u8>, WgKeyFault>(k),
        k.len() != 32 ==> (key_of(Ok(k)) matches Err(WgKeyFault::Length(n)) && n == k.len()),
        key_of(Err(t)) == Err::<Seq<u8>, WgKeyFault>(WgKeyFault::NotBase64(t)),
{
}

/// Packets of one to sixty-five thousand five hundred and three bytes fit a datagram.
pub proof fn law_mtu_range(mtu: int)
    ensures
        mtu_fits(mtu) <==> 1 <= mtu <= 65503,
{
}

/// No interval of keepalives and the interval zero are the same.
pub proof fn law_no_keepalive(s: u16)
    ensures
        keepalive_secs(None) == 0,
        keepalive_secs(Some(s)) == s,
{
}

} // verus!
