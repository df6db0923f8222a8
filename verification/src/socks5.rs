//! The handshake of a SOCKS client: the choice of a method, the check of a user name and password,
//! and the request.

use vstd::prelude::*;

use crate::ip::{ip_format, push_ip, IpAddr, IpView};
use crate::text::{decimal, push_decimal, push_text, string_of, utf8_string, utf8_text};
use crate::wire::{be16, copy_16, copy_range, lemma_be16_at, read_u16, same_bytes, u16_at};

verus! {

/// What a client asks for.
#[derive(Debug)]
pub enum SocksCommand {
    TcpConnect(String),
    UdpAssociate,
}

/// What a client asks for, as a value.
#[verifier::ext_equal]
pub enum CommandView {
    TcpConnect(Seq<char>),
    UdpAssociate,
}

impl View for SocksCommand {
    type V = CommandView;

    open spec fn view(&self) -> CommandView {
        match *self {
            SocksCommand::TcpConnect(t) => CommandView::TcpConnect(t@),
            SocksCommand::UdpAssociate => CommandView::UdpAssociate,
        }
    }
}

/// The user name and password that clients have to know.
pub struct InboundAuth {
    pub username: String,
    pub password: String,
}

/// The user name and password as bytes.
pub open spec fn secrets(a: InboundAuth) -> (Seq<u8>, Seq<u8>) {
    (vstd::utf8::encode_utf8(a.username@), vstd::utf8::encode_utf8(a.password@))
}

impl InboundAuth {
    /// Whether a user name and a password are the right ones.
    pub fn verify(&self, username: &[u8], password: &[u8]) -> (r: bool)
        ensures
            r == ((username@, password@) == secrets(*self)),
    {
        let u: bool = same_bytes(self.username.as_str().as_bytes(), username);
        let p: bool = same_bytes(self.password.as_str().as_bytes(), password);
        u && p
    }
}

/// Why a handshake failed.
#[derive(Clone, Copy, PartialEq, Eq, Structural, Debug)]
pub enum SocksError {
    Version(u8),
    NoUserPass,
    NoMethod,
    AuthVersion(u8),
    AuthFailed,
    RequestVersion,
    Command,
    AddressType,
    NameNotUtf8,
}

/// How far a handshake has come: what is read next.
#[derive(Clone, Copy, PartialEq, Eq, Structural, Debug)]
pub enum Stage {
    /// Version and number of methods.
    Greeting,
    /// The methods.
    Methods(u8),
    /// The version of the password check.
    AuthVersion,
    /// The length of the user name.
    UserLen,
    /// The user name.
    User(u8),
    /// The length of the password.
    PassLen,
    /// The password.
    Pass(u8),
    /// The request up to the type of its address.
    Request,
    /// A version 4 address and the port.
    V4(bool),
    /// The length of a name.
    NameLen(bool),
    /// A name and the port.
    Name(bool, u8),
    /// A version 6 address and the port.
    V6(bool),
    /// Nothing more.
    Over,
}

/// How many bytes are read next.
pub open spec fn needed(s: Stage) -> int {
    match s {
        Stage::Greeting => 2,
        Stage::Methods(n) => n as int,
        Stage::AuthVersion => 1,
        Stage::UserLen => 1,
        Stage::User(n) => n as int,
        Stage::PassLen => 1,
        Stage::Pass(n) => n as int,
        Stage::Request => 4,
        Stage::V4(_) => 6,
        Stage::NameLen(_) => 1,
        Stage::Name(_, n) => n + 2,
        Stage::V6(_) => 18,
        Stage::Over => 0,
    }
}

/// What a step of the handshake leads to.
#[verifier::ext_equal]
pub struct Step {
    pub stage: Stage,
    pub user: Seq<u8>,
    pub reply: Seq<u8>,
    pub outcome: Option<Result<CommandView, SocksError>>,
}

/// The handshake goes on.
pub open spec fn going_on(stage: Stage, user: Seq<u8>, reply: Seq<u8>) -> Step {
    Step { stage, user, reply, outcome: None }
}

/// The handshake has failed.
pub open spec fn failing(e: SocksError, reply: Seq<u8>) -> Step {
    Step { stage: Stage::Over, user: seq![], reply, outcome: Some(Err(e)) }
}

/// The handshake is complete. A request for a connection is answered at once.
pub open spec fn complete(connect: bool, target: Seq<char>) -> Step {
    if connect {
        Step {
            stage: Stage::Over,
            user: seq![],
            reply: seq![5u8, 0, 0, 1, 0, 0, 0, 0, 0, 0],
            outcome: Some(Ok(CommandView::TcpConnect(target))),
        }
    } else {
        Step { stage: Stage::Over, user: seq![], reply: seq![], outcome: Some(Ok(CommandView::UdpAssociate)) }
    }
}

/// A host and a port.
pub open spec fn host_colon_port(host: Seq<char>, port: int) -> Seq<char> {
    host + seq![':'] + decimal(port as nat)
}

/// What the bytes that were read lead to.
pub open spec fn step(stage: Stage, user: Seq<u8>, auth: Option<(Seq<u8>, Seq<u8>)>, b: Seq<u8>) -> Step {
    match stage {
        Stage::Greeting => if b[0] != 5 {
            failing(SocksError::Version(b[0]), seq![])
        } else {
            going_on(Stage::Methods(b[1]), seq![], seq![])
        },
        Stage::Methods(_) => match auth {
            Some(_) => if b.contains(2) {
                going_on(Stage::AuthVersion, seq![], seq![5, 2])
            } else {
                failing(SocksError::NoUserPass, seq![5, 255])
            },
            None => if b.contains(0) {
                going_on(Stage::Request, seq![], seq![5, 0])
            } else {
                failing(SocksError::NoMethod, seq![5, 255])
            },
        },
        Stage::AuthVersion => if b[0] != 1 {
            failing(SocksError::AuthVersion(b[0]), seq![])
        } else {
            going_on(Stage::UserLen, seq![], seq![])
        },
        Stage::UserLen => going_on(Stage::User(b[0]), seq![], seq![]),
        Stage::User(_) => going_on(Stage::PassLen, b, seq![]),
        Stage::PassLen => going_on(Stage::Pass(b[0]), user, seq![]),
        Stage::Pass(_) => if auth == Some((user, b)) {
            going_on(Stage::Request, seq![], seq![1, 0])
        } else {
            failing(SocksError::AuthFailed, seq![1, 1])
        },
        Stage::Request => if b[0] != 5 {
            failing(SocksError::RequestVersion, seq![])
        } else if b[1] != 1 && b[1] != 3 {
            failing(SocksError::Command, seq![])
        } else if b[3] == 1 {
            going_on(Stage::V4(b[1] == 1), seq![], seq![])
        } else if b[3] == 3 {
            going_on(Stage::NameLen(b[1] == 1), seq![], seq![])
        } else if b[3] == 4 {
            going_on(Stage::V6(b[1] == 1), seq![], seq![])
        } else {
            failing(SocksError::AddressType, seq![])
        },
        Stage::V4(c) => complete(c, host_colon_port(ip_format(IpView::V4(b.subrange(0, 4))), u16_at(b, 4))),
        Stage::NameLen(c) => going_on(Stage::Name(c, b[0]), seq![], seq![]),
        Stage::Name(c, n) => match utf8_text(b.subrange(0, n as int)) {
            None => failing(SocksError::NameNotUtf8, seq![]),
            Some(h) => complete(c, host_colon_port(h, u16_at(b, n as int))),
        },
        Stage::V6(c) => complete(
            c,
            host_colon_port(seq!['['] + ip_format(IpView::V6(b.subrange(0, 16))) + seq![']'], u16_at(b, 16)),
        ),
        Stage::Over => going_on(Stage::Over, seq![], seq![]),
    }
}

/// A handshake with a client.
pub struct Handshake {
    pub auth: Option<InboundAuth>,
    pub stage: Stage,
    pub user: Vec<u8>,
}

/// What a step of the handshake gives: bytes for the client, and the outcome once there is one.
pub struct Answer {
    pub reply: Vec<u8>,
    pub outcome: Option<Result<SocksCommand, SocksError>>,
}

/// An outcome as a value.
pub open spec fn outcome_view(o: Option<Result<SocksCommand, SocksError>>) -> Option<Result<CommandView, SocksError>> {
    match o {
        None => None,
        Some(Ok(c)) => Some(Ok(c@)),
        Some(Err(e)) => Some(Err(e)),
    }
}

/// The secrets of a configured check.
pub open spec fn opt_secrets(a: Option<InboundAuth>) -> Option<(Seq<u8>, Seq<u8>)> {
    match a {
        Some(x) => Some(secrets(x)),
        None => None,
    }
}

fn holds(b: &[u8], x: u8) -> (r: bool)
    ensures
        r == b@.contains(x),
{
    let mut i: usize = 0;
    while i < b.len()
        invariant
            i <= b@.len(),
            forall|k: int| 0 <= k < i ==> b@[k] != x,
        decreases b@.len() - i,
    {
        if b[i] == x {
            assert(b@[i as int] == x);
            return true;
        }
        i = i + 1;
    }
    false
}

impl Handshake {
    /// A handshake that has not begun. With `auth`, clients have to know the password.
    pub fn new(auth: Option<InboundAuth>) -> (r: Handshake)
        ensures
            r.auth == auth,
            r.stage == Stage::Greeting,
            r.user@.len() == 0,
    {
        Handshake { auth, stage: Stage::Greeting, user: Vec::new() }
    }

    /// How many bytes have to be read next.
    pub fn need(&self) -> (r: usize)
        ensures
            r == needed(self.stage),
    {
        match self.stage {
            Stage::Greeting => 2,
            Stage::Methods(n) => n as usize,
            Stage::AuthVersion => 1,
            Stage::UserLen => 1,
            Stage::User(n) => n as usize,
            Stage::PassLen => 1,
            Stage::Pass(n) => n as usize,
            Stage::Request => 4,
            Stage::V4(_) => 6,
            Stage::NameLen(_) => 1,
            Stage::Name(_, n) => n as usize + 2,
            Stage::V6(_) => 18,
            Stage::Over => 0,
        }
    }

    /// Takes in the bytes that were read.
    pub fn feed(&mut self, b: &[u8]) -> (r: Answer)
        requires
            b@.len() == needed(old(self).stage),
        ensures
            ({
                let s = step(old(self).stage, old(self).user@, opt_secrets(old(self).auth), b@);
                &&& final(self).stage == s.stage
                &&& final(self).user@ == s.user
                &&& r.reply@ == s.reply
                &&& outcome_view(r.outcome) == s.outcome
            }),
            final(self).auth == old(self).auth,
    {
        let mut user: Vec<u8> = Vec::new();
        std::mem::swap(&mut user, &mut self.user);
        let mut reply: Vec<u8> = Vec::new();
        let mut fail: Option<SocksError> = None;
        let mut done: Option<(bool, String)> = None;
        match self.stage {
            Stage::Greeting => {
                if b[0] != 5 {
                    fail = Some(SocksError::Version(b[0]));
                } else {
                    self.stage = Stage::Methods(b[1]);
                }
            },
            Stage::Methods(_) => {
                reply.push(5);
                match &self.auth {
                    Some(_) => {
                        if holds(b, 2) {
                            reply.push(2);
                            self.stage = Stage::AuthVersion;
                        } else {
                            reply.push(255);
                            fail = Some(SocksError::NoUserPass);
                        }
                    },
                    None => {
                        if holds(b, 0) {
                            reply.push(0);
                            self.stage = Stage::Request;
                        } else {
                            reply.push(255);
                            fail = Some(SocksError::NoMethod);
                        }
                    },
                }
            },
            Stage::AuthVersion => {
                if b[0] != 1 {
                    fail = Some(SocksError::AuthVersion(b[0]));
                } else {
                    self.stage = Stage::UserLen;
                }
            },
            Stage::UserLen => {
                self.stage = Stage::User(b[0]);
            },
            Stage::User(_) => {
                self.user = copy_range(b, 0, b.len());
                assert(self.user@ =~= b@);
                self.stage = Stage::PassLen;
            },
            Stage::PassLen => {
                self.user = user;
                self.stage = Stage::Pass(b[0]);
            },
            Stage::Pass(_) => {
                let right: bool = match &self.auth {
                    Some(a) => a.verify(user.as_slice(), b),
                    None => false,
                };
                reply.push(1);
                if right {
                    reply.push(0);
                    self.stage = Stage::Request;
                } else {
                    reply.push(1);
                    fail = Some(SocksError::AuthFailed);
                }
            },
            Stage::Request => {
                if b[0] != 5 {
                    fail = Some(SocksError::RequestVersion);
                } else if b[1] != 1 && b[1] != 3 {
                    fail = Some(SocksError::Command);
                } else if b[3] == 1 {
                    self.stage = Stage::V4(b[1] == 1);
                } else if b[3] == 3 {
                    self.stage = Stage::NameLen(b[1] == 1);
                } else if b[3] == 4 {
                    self.stage = Stage::V6(b[1] == 1);
                } else {
                    fail = Some(SocksError::AddressType);
                }
            },
            Stage::V4(c) => {
                let o: [u8; 4] = [b[0], b[1], b[2], b[3]];
                assert(o@ =~= b@.subrange(0, 4));
                let mut out: Vec<char> = Vec::new();
                push_ip(&mut out, &IpAddr::V4(o));
                out.push(':');
                push_decimal(&mut out, read_u16(b, 4) as u64);
                assert(out@ =~= host_colon_port(ip_format(IpView::V4(o@)), u16_at(b@, 4)));
                done = Some((c, string_of(out.as_slice())));
            },
            Stage::NameLen(c) => {
                self.stage = Stage::Name(c, b[0]);
            },
            Stage::Name(c, n) => {
                let name: Vec<u8> = copy_range(b, 0, n as usize);
                match utf8_string(name.as_slice()) {
                    None => {
                        fail = Some(SocksError::NameNotUtf8);
                    },
                    Some(h) => {
                        let mut out: Vec<char> = Vec::new();
                        push_text(&mut out, h.as_str());
                        out.push(':');
                        push_decimal(&mut out, read_u16(b, n as usize) as u64);
                        assert(out@ =~= host_colon_port(h@, u16_at(b@, n as int)));
                        done = Some((c, string_of(out.as_slice())));
                    },
                }
            },
            Stage::V6(c) => {
                let o: [u8; 16] = copy_16(b, 0);
                let mut out: Vec<char> = Vec::new();
                out.push('[');
                push_ip(&mut out, &IpAddr::V6(o));
                out.push(']');
                out.push(':');
                push_decimal(&mut out, read_u16(b, 16) as u64);
                assert(out@ =~= host_colon_port(
                    seq!['['] + ip_format(IpView::V6(o@)) + seq![']'],
                    u16_at(b@, 16),
                ));
                done = Some((c, string_of(out.as_slice())));
            },
            Stage::Over => {},
        }
        match fail {
            Some(e) => {
                self.stage = Stage::Over;
                return Answer { reply, outcome: Some(Err(e)) };
            },
            None => {},
        }
        match done {
            Some(x) => {
                self.stage = Stage::Over;
                if x.0 {
                    let ok: [u8; 10] = [5u8, 0, 0, 1, 0, 0, 0, 0, 0, 0];
                    crate::wire::push_bytes(&mut reply, ok.as_slice());
                    assert(reply@ =~= seq![5u8, 0, 0, 1, 0, 0, 0, 0, 0, 0]);
                    Answer { reply, outcome: Some(Ok(SocksCommand::TcpConnect(x.1))) }
                } else {
                    Answer { reply, outcome: Some(Ok(SocksCommand::UdpAssociate)) }
                }
            },
            None => Answer { reply, outcome: None },
        }
    }
}

/// Where a password is required, a client comes to its request only by giving the right one. No
/// choice of methods leads around it.
pub proof fn law_password_required(stage: Stage, user: Seq<u8>, secret: (Seq<u8>, Seq<u8>), b: Seq<u8>)
    requires
        step(stage, user, Some(secret), b).stage is Request,
    ensures
        stage is Pass,
        secret == (user, b),
{
}

/// A command comes out only behind a request.
pub proof fn law_command_after_request(stage: Stage, user: Seq<u8>, auth: Option<(Seq<u8>, Seq<u8>)>, b: Seq<u8>)
    requires
        step(stage, user, auth, b).outcome is Some,
        step(stage, user, auth, b).outcome->0 is Ok,
    ensures
        stage is V4 || stage is Name || stage is V6,
{
}

/// The request stages are entered from the request alone.
pub proof fn law_address_after_request(stage: Stage, user: Seq<u8>, auth: Option<(Seq<u8>, Seq<u8>)>, b: Seq<u8>)
    ensures
        ({
            let s = step(stage, user, auth, b).stage;
            &&& s is V4 || s is V6 || s is NameLen ==> stage is Request
            &&& s is Name ==> stage is NameLen
        }),
{
}

/// A handshake from a stage on, with what the client sends piece by piece: what it is answered, and
/// what comes out. A piece of another length than is read next ends it without an outcome.
#[verifier::opaque]
pub open spec fn conversation(
    auth: Option<(Seq<u8>, Seq<u8>)>,
    stage: Stage,
    user: Seq<u8>,
    sent: Seq<Seq<u8>>,
) -> (Seq<u8>, Option<Result<CommandView, SocksError>>)
    decreases sent.len(),
{
    if sent.len() == 0 || sent[0].len() != needed(stage) {
        (seq![], None)
    } else {
        let s = step(stage, user, auth, sent[0]);
        if s.outcome is Some {
            (s.reply, s.outcome)
        } else {
            let rest = conversation(auth, s.stage, s.user, sent.drop_first());
            (s.reply + rest.0, rest.1)
        }
    }
}

proof fn lemma_conversation_step(
    auth: Option<(Seq<u8>, Seq<u8>)>,
    stage: Stage,
    user: Seq<u8>,
    b: Seq<u8>,
    rest: Seq<Seq<u8>>,
)
    requires
        b.len() == needed(stage),
    ensures
        ({
            let s = step(stage, user, auth, b);
            let x = conversation(auth, s.stage, s.user, rest);
            conversation(auth, stage, user, seq![b] + rest) == if s.outcome is Some {
                (s.reply, s.outcome)
            } else {
                (s.reply + x.0, x.1)
            }
        }),
{
    reveal(conversation);
    assert((seq![b] + rest).drop_first() =~= rest);
    assert((seq![b] + rest)[0] == b);
}

/// What a client asks for, as it sends it: a command, one for a connection and three for datagrams,
/// and a target.
#[verifier::ext_equal]
pub enum SocksTarget {
    V4(Seq<u8>),
    Name(Seq<char>),
    V6(Seq<u8>),
}

/// The pieces of a request.
pub open spec fn request_pieces(connect: bool, t: SocksTarget, port: u16) -> Seq<Seq<u8>> {
    let c = if connect {
        1u8
    } else {
        3u8
    };
    match t {
        SocksTarget::V4(o) => seq![seq![5u8, c, 0, 1], o + be16(port)],
        SocksTarget::Name(n) => seq![
            seq![5u8, c, 0, 3],
            seq![vstd::utf8::encode_utf8(n).len() as u8],
            vstd::utf8::encode_utf8(n) + be16(port),
        ],
        SocksTarget::V6(o) => seq![seq![5u8, c, 0, 4], o + be16(port)],
    }
}

/// What a request comes to: a connection to the target, with its port behind a colon and an address of
/// version 6 in square brackets, which is answered at once; or datagrams.
pub open spec fn request_outcome(connect: bool, t: SocksTarget, port: u16) -> (
    Seq<u8>,
    Option<Result<CommandView, SocksError>>,
) {
    if connect {
        (
            seq![5u8, 0, 0, 1, 0, 0, 0, 0, 0, 0],
            Some(
                Ok(
                    CommandView::TcpConnect(
                        match t {
                            SocksTarget::V4(o) => ip_format(IpView::V4(o)),
                            SocksTarget::Name(n) => n,
                            SocksTarget::V6(o) => seq!['['] + ip_format(IpView::V6(o)) + seq![']'],
                        } + seq![':'] + decimal(port as nat),
                    ),
                ),
            ),
        )
    } else {
        (seq![], Some(Ok(CommandView::UdpAssociate)))
    }
}

/// The parts of a target have their lengths.
pub open spec fn whole_target(t: SocksTarget) -> bool {
    match t {
        SocksTarget::V4(o) => o.len() == 4,
        SocksTarget::Name(n) => vstd::utf8::encode_utf8(n).len() <= 255,
        SocksTarget::V6(o) => o.len() == 16,
    }
}

proof fn lemma_two_pieces(auth: Option<(Seq<u8>, Seq<u8>)>, a: Seq<u8>, b: Seq<u8>)
    requires
        a.len() == 4,
        ({
            let s = step(Stage::Request, seq![], auth, a);
            s.outcome is None && s.user == Seq::<u8>::empty() && b.len() == needed(s.stage) && step(
                s.stage,
                seq![],
                auth,
                b,
            ).outcome is Some
        }),
    ensures
        ({
            let s = step(Stage::Request, seq![], auth, a);
            let t = step(s.stage, seq![], auth, b);
            conversation(auth, Stage::Request, seq![], seq![a, b]) == (s.reply + t.reply, t.outcome)
        }),
{
    let s = step(Stage::Request, seq![], auth, a);
    assert(seq![a, b] =~= seq![a] + (seq![b] + Seq::<Seq<u8>>::empty()));
    lemma_conversation_step(auth, Stage::Request, seq![], a, seq![b] + Seq::<Seq<u8>>::empty());
    lemma_conversation_step(auth, s.stage, seq![], b, seq![]);
}

proof fn lemma_request_v4(auth: Option<(Seq<u8>, Seq<u8>)>, connect: bool, o: Seq<u8>, port: u16)
    requires
        o.len() == 4,
    ensures
        conversation(auth, Stage::Request, seq![], request_pieces(connect, SocksTarget::V4(o), port))
            == request_outcome(connect, SocksTarget::V4(o), port),
{
    let p = request_pieces(connect, SocksTarget::V4(o), port);
    assert(p =~= seq![p[0], p[1]]);
    assert(p[1].subrange(4, 6) =~= be16(port));
    lemma_be16_at(port, p[1], 4);
    assert(p[1].subrange(0, 4) =~= o);
    lemma_two_pieces(auth, p[0], p[1]);
    let x = request_outcome(connect, SocksTarget::V4(o), port);
    assert(Seq::<u8>::empty() + x.0 =~= x.0);
}

proof fn lemma_request_v6(auth: Option<(Seq<u8>, Seq<u8>)>, connect: bool, o: Seq<u8>, port: u16)
    requires
        o.len() == 16,
    ensures
        conversation(auth, Stage::Request, seq![], request_pieces(connect, SocksTarget::V6(o), port))
            == request_outcome(connect, SocksTarget::V6(o), port),
{
    let p = request_pieces(connect, SocksTarget::V6(o), port);
    assert(p =~= seq![p[0], p[1]]);
    assert(p[1].subrange(16, 18) =~= be16(port));
    lemma_be16_at(port, p[1], 16);
    assert(p[1].subrange(0, 16) =~= o);
    lemma_two_pieces(auth, p[0], p[1]);
    let x = request_outcome(connect, SocksTarget::V6(o), port);
    assert(Seq::<u8>::empty() + x.0 =~= x.0);
}

proof fn lemma_request_name(auth: Option<(Seq<u8>, Seq<u8>)>, connect: bool, n: Seq<char>, port: u16)
    requires
        vstd::utf8::encode_utf8(n).len() <= 255,
    ensures
        conversation(auth, Stage::Request, seq![], request_pieces(connect, SocksTarget::Name(n), port))
            == request_outcome(connect, SocksTarget::Name(n), port),
{
    let p = request_pieces(connect, SocksTarget::Name(n), port);
    let e = vstd::utf8::encode_utf8(n);
    let none = Seq::<Seq<u8>>::empty();
    let p2 = seq![p[2]] + none;
    let p1 = seq![p[1]] + p2;
    assert(p =~= seq![p[0]] + p1);
    lemma_conversation_step(auth, Stage::Request, seq![], p[0], p1);
    lemma_conversation_step(auth, Stage::NameLen(connect), seq![], p[1], p2);
    lemma_conversation_step(auth, Stage::Name(connect, e.len() as u8), seq![], p[2], none);
    assert(p[2].subrange(e.len() as int, e.len() as int + 2) =~= be16(port));
    lemma_be16_at(port, p[2], e.len() as int);
    assert(p[2].subrange(0, e.len() as int) =~= e);
    vstd::utf8::encode_utf8_valid_utf8(n);
    vstd::utf8::encode_utf8_decode_utf8(n);
    let x = request_outcome(connect, SocksTarget::Name(n), port);
    assert(Seq::<u8>::empty() + x.0 =~= x.0);
}

proof fn lemma_request(auth: Option<(Seq<u8>, Seq<u8>)>, connect: bool, t: SocksTarget, port: u16)
    requires
        whole_target(t),
    ensures
        conversation(auth, Stage::Request, seq![], request_pieces(connect, t, port)) == request_outcome(connect, t, port),
{
    match t {
        SocksTarget::V4(o) => lemma_request_v4(auth, connect, o, port),
        SocksTarget::Name(n) => lemma_request_name(auth, connect, n, port),
        SocksTarget::V6(o) => lemma_request_v6(auth, connect, o, port),
    }
}

proof fn lemma_password(secret: (Seq<u8>, Seq<u8>), user: Seq<u8>, pass: Seq<u8>, p: Seq<Seq<u8>>)
    requires
        user.len() <= 255,
        pass.len() <= 255,
    ensures
        ({
            let x = conversation(Some(secret), Stage::Request, seq![], p);
            conversation(
                Some(secret),
                Stage::AuthVersion,
                seq![],
                seq![seq![1u8]] + (seq![seq![user.len() as u8]] + (seq![user] + (seq![seq![pass.len() as u8]] + (seq![
                    pass,
                ] + p)))),
            ) == if secret == (user, pass) {
                (seq![1u8, 0] + x.0, x.1)
            } else {
                (seq![1u8, 1], Some(Err::<CommandView, SocksError>(SocksError::AuthFailed)))
            }
        }),
{
    let auth = Some(secret);
    let p6 = seq![pass] + p;
    let p5 = seq![seq![pass.len() as u8]] + p6;
    let p4 = seq![user] + p5;
    let p3 = seq![seq![user.len() as u8]] + p4;
    lemma_conversation_step(auth, Stage::AuthVersion, seq![], seq![1u8], p3);
    lemma_conversation_step(auth, Stage::UserLen, seq![], seq![user.len() as u8], p4);
    lemma_conversation_step(auth, Stage::User(user.len() as u8), seq![], user, p5);
    lemma_conversation_step(auth, Stage::PassLen, user, seq![pass.len() as u8], p6);
    lemma_conversation_step(auth, Stage::Pass(pass.len() as u8), user, pass, p);
    let x = conversation(auth, Stage::Request, seq![], p);
    assert(Seq::<u8>::empty() + (seq![1u8, 0] + x.0) =~= seq![1u8, 0] + x.0);
    assert(Seq::<u8>::empty() + seq![1u8, 1] =~= seq![1u8, 1]);
}

/// Where no password is required, a client that offers to go without one is told so, and gets what it
/// asks for: a connection to its target, or datagrams. One that does not offer it is turned away.
pub proof fn law_open_handshake(methods: Seq<u8>, connect: bool, t: SocksTarget, port: u16)
    requires
        methods.len() <= 255,
        whole_target(t),
    ensures
        methods.contains(0) ==> conversation(
            None,
            Stage::Greeting,
            seq![],
            seq![seq![5u8, methods.len() as u8], methods] + request_pieces(connect, t, port),
        ) == (seq![5u8, 0] + request_outcome(connect, t, port).0, request_outcome(connect, t, port).1),
        !methods.contains(0) ==> conversation(
            None,
            Stage::Greeting,
            seq![],
            seq![seq![5u8, methods.len() as u8], methods] + request_pieces(connect, t, port),
        ) == (seq![5u8, 255], Some(Err::<CommandView, SocksError>(SocksError::NoMethod))),
{
    let p = request_pieces(connect, t, port);
    let g = seq![5u8, methods.len() as u8];
    assert(seq![g, methods] + p =~= seq![g] + (seq![methods] + p));
    lemma_conversation_step(None, Stage::Greeting, seq![], g, seq![methods] + p);
    lemma_conversation_step(None, Stage::Methods(methods.len() as u8), seq![], methods, p);
    lemma_request(None, connect, t, port);
    let x = request_outcome(connect, t, port).0;
    assert(Seq::<u8>::empty() + (seq![5u8, 0] + x) =~= seq![5u8, 0] + x);
    assert(Seq::<u8>::empty() + seq![5u8, 255] =~= seq![5u8, 255]);
}

/// Where a password is required, a client that offers to give one is asked for it. With the right user
/// name and password it gets what it asks for; with any other it is turned away, and so is one that
/// does not offer to give a password.
pub proof fn law_password_handshake(
    secret: (Seq<u8>, Seq<u8>),
    methods: Seq<u8>,
    user: Seq<u8>,
    pass: Seq<u8>,
    connect: bool,
    t: SocksTarget,
    port: u16,
)
    requires
        methods.len() <= 255,
        user.len() <= 255,
        pass.len() <= 255,
        whole_target(t),
    ensures
        ({
            let sent = seq![
                seq![5u8, methods.len() as u8],
                methods,
                seq![1u8],
                seq![user.len() as u8],
                user,
                seq![pass.len() as u8],
                pass,
            ] + request_pieces(connect, t, port);
            conversation(Some(secret), Stage::Greeting, seq![], sent) == if !methods.contains(2) {
                (seq![5u8, 255], Some(Err::<CommandView, SocksError>(SocksError::NoUserPass)))
            } else if secret == (user, pass) {
                (seq![5u8, 2, 1, 0] + request_outcome(connect, t, port).0, request_outcome(connect, t, port).1)
            } else {
                (seq![5u8, 2, 1, 1], Some(Err::<CommandView, SocksError>(SocksError::AuthFailed)))
            }
        }),
{
    let auth = Some(secret);
    let p = request_pieces(connect, t, port);
    let g = seq![5u8, methods.len() as u8];
    let p2 = seq![seq![1u8]] + (seq![seq![user.len() as u8]] + (seq![user] + (seq![seq![pass.len() as u8]] + (seq![pass]
        + p))));
    let p1 = seq![methods] + p2;
    assert(seq![g, methods, seq![1u8], seq![user.len() as u8], user, seq![pass.len() as u8], pass] + p =~= seq![g] + p1);
    lemma_conversation_step(auth, Stage::Greeting, seq![], g, p1);
    lemma_conversation_step(auth, Stage::Methods(methods.len() as u8), seq![], methods, p2);
    lemma_password(secret, user, pass, p);
    lemma_request(auth, connect, t, port);
    let x = request_outcome(connect, t, port).0;
    assert(Seq::<u8>::empty() + seq![5u8, 255] =~= seq![5u8, 255]);
    assert(Seq::<u8>::empty() + (seq![5u8, 2] + (seq![1u8, 0] + x)) =~= seq![5u8, 2, 1, 0] + x);
    assert(Seq::<u8>::empty() + (seq![5u8, 2] + seq![1u8, 1]) =~= seq![5u8, 2, 1, 1]);
}

/// What makes no sense is refused, each for its own reason and without an answer: another version of
/// the protocol, of the check or of the request, another command, another kind of address, and a name
/// that is no text.
pub proof fn law_nonsense_refused(user: Seq<u8>, auth: Option<(Seq<u8>, Seq<u8>)>, b: Seq<u8>, connect: bool, n: u8)
    ensures
        ({
            let refused = |stage: Stage, e: SocksError|
                {
                    let s = step(stage, user, auth, b);
                    s.outcome == Some(Err::<CommandView, SocksError>(e)) && s.reply == Seq::<u8>::empty() && s.stage is Over
                };
            &&& b.len() == 2 && b[0] != 5 ==> refused(Stage::Greeting, SocksError::Version(b[0]))
            &&& b.len() == 1 && b[0] != 1 ==> refused(Stage::AuthVersion, SocksError::AuthVersion(b[0]))
            &&& b.len() == 4 && b[0] != 5 ==> refused(Stage::Request, SocksError::RequestVersion)
            &&& b.len() == 4 && b[0] == 5 && b[1] != 1 && b[1] != 3 ==> refused(Stage::Request, SocksError::Command)
            &&& b.len() == 4 && b[0] == 5 && (b[1] == 1 || b[1] == 3) && b[3] != 1 && b[3] != 3 && b[3] != 4 ==> refused(
                Stage::Request,
                SocksError::AddressType,
            )
            &&& b.len() == n + 2 && !vstd::utf8::valid_utf8(b.take(n as int)) ==> refused(
                Stage::Name(connect, n),
                SocksError::NameNotUtf8,
            )
        }),
{
    assert(b.len() == n + 2 ==> b.subrange(0, n as int) =~= b.take(n as int));
}

} // verus!
