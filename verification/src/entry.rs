//! How a server takes a client in: the order of what is read, checked and answered, from the head of
//! the first record to the point at which the encrypted exchange begins.

use vstd::prelude::*;

use crate::chance::random_u64;
use crate::server::{
    answer_delay_us, hello_fields, hello_token, record_body, record_len, CLIENT_TAIL_LEN, RELAY_IDLE_SECS,
    TLS_RECORD_HEADER_LEN,
};
use crate::text::{chars_of, parse_uint, trim, trimmed, uint_text};
use crate::wire::push_bytes;

verus! {

/// How long reading a part of the handshake may take, in seconds.
pub const READ_TIMEOUT_SECS: u64 = 5;

/// How long the client may take to ask for something, in seconds.
pub const REQUEST_TIMEOUT_SECS: u64 = 60;

/// How far a client has come.
#[derive(Clone, Copy, PartialEq, Eq, Structural, Debug)]
pub enum EntryStage {
    /// The head of the first record is read.
    Head,
    /// The body of the first record is read; it has this type and this length.
    Body(u8, usize),
    /// The session token is checked.
    Token,
    /// A key for this session is made.
    Key,
    /// The answer is fetched.
    Template,
    /// The answer waits.
    Pause,
    /// The answer is sent.
    Answer,
    /// The end of the client's handshake is read.
    Tail,
    /// The session key is agreed on.
    Agree,
    /// There is nothing more to do here.
    Over,
}

/// What came of the last action.
pub enum EntryEvent {
    /// The bytes that were asked for.
    Bytes(Vec<u8>),
    /// It worked.
    Done,
    /// It failed or took too long.
    Failed,
    /// Whether the session token is the right one.
    Token(bool),
    /// The answer is there; the round trip time to the camouflage site in microseconds, where it is
    /// known, and a number from zero to fifty.
    Answer(u64, u64),
}

/// An event as a value.
#[verifier::ext_equal]
pub enum EventView {
    Bytes(Seq<u8>),
    Done,
    Failed,
    Token(bool),
    Answer(u64, u64),
}

impl View for EntryEvent {
    type V = EventView;

    open spec fn view(&self) -> EventView {
        match *self {
            EntryEvent::Bytes(b) => EventView::Bytes(b@),
            EntryEvent::Done => EventView::Done,
            EntryEvent::Failed => EventView::Failed,
            EntryEvent::Token(b) => EventView::Token(b),
            EntryEvent::Answer(a, b) => EventView::Answer(a, b),
        }
    }
}

/// What is done next.
#[derive(Clone, Copy, PartialEq, Eq, Structural, Debug)]
pub enum EntryAction {
    /// Read so many bytes.
    Read(usize),
    /// Check the session token.
    CheckToken,
    /// Show the camouflage site, with the client's own first record.
    Camouflage,
    /// Make a key for this session.
    MakeKey,
    /// Fetch the answer.
    FetchAnswer,
    /// Wait for so many microseconds.
    Pause(u64),
    /// Send the answer.
    SendAnswer,
    /// Agree on the session key with what the client sent.
    Agree,
    /// Begin the encrypted exchange.
    Serve,
    /// Close the connection without a word.
    Close,
}

/// Where a client is taken in: whether each session has a key of its own, how far the client has come,
/// its first record, and the token and the random bytes in it.
pub struct Entry {
    pub pfs: bool,
    pub stage: EntryStage,
    pub hello: Vec<u8>,
    pub token: [u8; 32],
    pub random: [u8; 32],
}

/// Where a client is taken in, as a value.
#[verifier::ext_equal]
pub struct EntryView {
    pub pfs: bool,
    pub stage: EntryStage,
    pub hello: Seq<u8>,
    pub token: Seq<u8>,
    pub random: Seq<u8>,
}

impl View for Entry {
    type V = EntryView;

    open spec fn view(&self) -> EntryView {
        EntryView {
            pfs: self.pfs,
            stage: self.stage,
            hello: self.hello@,
            token: self.token@,
            random: self.random@,
        }
    }
}

/// The same, at another stage.
pub open spec fn at(s: EntryView, stage: EntryStage) -> EntryView {
    EntryView { stage, ..s }
}

/// After the token has been found right: first a key, where sessions have their own.
pub open spec fn after_token(s: EntryView) -> (EntryView, EntryAction) {
    if s.pfs {
        (at(s, EntryStage::Key), EntryAction::MakeKey)
    } else {
        (at(s, EntryStage::Template), EntryAction::FetchAnswer)
    }
}

/// The next stage and what is done next.
pub open spec fn entered(s: EntryView, e: EventView) -> (EntryView, EntryAction) {
    match (s.stage, e) {
        (EntryStage::Head, EventView::Bytes(b)) => if b.len() != TLS_RECORD_HEADER_LEN {
            (at(s, EntryStage::Over), EntryAction::Close)
        } else {
            match record_body(b) {
                None => (at(s, EntryStage::Over), EntryAction::Close),
                Some(n) => (
                    EntryView { stage: EntryStage::Body(b[0], n as usize), hello: b, ..s },
                    EntryAction::Read(n as usize),
                ),
            }
        },
        (EntryStage::Body(kind, n), EventView::Bytes(b)) => if b.len() != n {
            (at(s, EntryStage::Over), EntryAction::Close)
        } else {
            match hello_fields(kind, b) {
                None => (EntryView { stage: EntryStage::Over, hello: s.hello + b, ..s }, EntryAction::Camouflage),
                Some(f) => (
                    EntryView { stage: EntryStage::Token, hello: s.hello + b, token: f.0, random: f.1, ..s },
                    EntryAction::CheckToken,
                ),
            }
        },
        (EntryStage::Token, EventView::Token(right)) => if right {
            after_token(s)
        } else {
            (at(s, EntryStage::Over), EntryAction::Camouflage)
        },
        (EntryStage::Key, EventView::Done) => (at(s, EntryStage::Template), EntryAction::FetchAnswer),
        (EntryStage::Template, EventView::Answer(rtt, jitter)) => if rtt > 0 {
            (at(s, EntryStage::Pause), EntryAction::Pause(pause_us(rtt as int, jitter as int) as u64))
        } else {
            (at(s, EntryStage::Answer), EntryAction::SendAnswer)
        },
        (EntryStage::Pause, EventView::Done) => (at(s, EntryStage::Answer), EntryAction::SendAnswer),
        (EntryStage::Answer, EventView::Done) => (at(s, EntryStage::Tail), EntryAction::Read(CLIENT_TAIL_LEN)),
        (EntryStage::Tail, EventView::Bytes(b)) => if b.len() != CLIENT_TAIL_LEN {
            (at(s, EntryStage::Over), EntryAction::Close)
        } else if s.pfs {
            (at(s, EntryStage::Agree), EntryAction::Agree)
        } else {
            (at(s, EntryStage::Over), EntryAction::Serve)
        },
        (EntryStage::Agree, EventView::Done) => (at(s, EntryStage::Over), EntryAction::Serve),
        _ => (at(s, EntryStage::Over), EntryAction::Close),
    }
}

/// How long an answer waits, in microseconds: the round trip time, varied by a quarter either way.
pub open spec fn pause_us(rtt: int, jitter: int) -> int {
    (if rtt * (75 + jitter) > u64::MAX {
        u64::MAX as int
    } else {
        rtt * (75 + jitter)
    }) / 100
}

impl Entry {
    /// A client of which nothing has been read.
    pub fn new(pfs: bool) -> (r: Entry)
        ensures
            r.pfs == pfs,
            r.stage == EntryStage::Head,
            r.hello@.len() == 0,
    {
        Entry { pfs, stage: EntryStage::Head, hello: Vec::new(), token: [0u8; 32], random: [0u8; 32] }
    }

    fn over(&mut self, a: EntryAction) -> (r: EntryAction)
        ensures
            final(self)@ == at(old(self)@, EntryStage::Over),
            r == a,
    {
        self.stage = EntryStage::Over;
        a
    }

    fn go(&mut self, stage: EntryStage, a: EntryAction) -> (r: EntryAction)
        ensures
            final(self)@ == at(old(self)@, stage),
            r == a,
    {
        self.stage = stage;
        a
    }

    fn on_bytes(&mut self, b: Vec<u8>) -> (r: EntryAction)
        ensures
            (final(self)@, r) == entered(old(self)@, EventView::Bytes(b@)),
    {
        match self.stage {
            EntryStage::Head => {
                if b.len() != TLS_RECORD_HEADER_LEN {
                    return self.over(EntryAction::Close);
                }
                let head: [u8; 5] = [b[0], b[1], b[2], b[3], b[4]];
                assert(head@ =~= b@);
                match record_len(&head) {
                    None => self.over(EntryAction::Close),
                    Some(n) => {
                        self.stage = EntryStage::Body(b[0], n);
                        self.hello = b;
                        EntryAction::Read(n)
                    },
                }
            },
            EntryStage::Body(kind, n) => {
                if b.len() != n {
                    return self.over(EntryAction::Close);
                }
                let ghost before = self.hello@;
                push_bytes(&mut self.hello, b.as_slice());
                assert(self.hello@ =~= before + b@);
                match hello_token(kind, b.as_slice()) {
                    None => {
                        self.stage = EntryStage::Over;
                        EntryAction::Camouflage
                    },
                    Some(f) => {
                        self.token = f.0;
                        self.random = f.1;
                        self.stage = EntryStage::Token;
                        EntryAction::CheckToken
                    },
                }
            },
            EntryStage::Tail => {
                if b.len() != CLIENT_TAIL_LEN {
                    self.over(EntryAction::Close)
                } else if self.pfs {
                    self.go(EntryStage::Agree, EntryAction::Agree)
                } else {
                    self.over(EntryAction::Serve)
                }
            },
            _ => self.over(EntryAction::Close),
        }
    }

    /// Takes in that the answer is there, with the round trip time to the camouflage site, and draws
    /// how far the pause is from it: from three quarters of that time to five quarters.
    pub fn answered(&mut self, rtt_us: u64) -> (r: EntryAction)
        ensures
            exists|j: u64|
                j <= 50 && (final(self)@, r) == #[trigger] entered(old(self)@, EventView::Answer(rtt_us, j)),
    {
        let j: u64 = random_u64(0, 50);
        let r: EntryAction = self.on(EntryEvent::Answer(rtt_us, j));
        assert((self@, r) == entered(old(self)@, EventView::Answer(rtt_us, j)));
        r
    }

    /// Takes in what came of the last action, and says what is done next.
    pub fn on(&mut self, e: EntryEvent) -> (r: EntryAction)
        requires
            e matches EntryEvent::Answer(_, j) ==> j <= 50,
        ensures
            (final(self)@, r) == entered(old(self)@, e@),
    {
        match e {
            EntryEvent::Bytes(b) => self.on_bytes(b),
            EntryEvent::Failed => self.over(EntryAction::Close),
            EntryEvent::Token(right) => match self.stage {
                EntryStage::Token => {
                    if !right {
                        self.over(EntryAction::Camouflage)
                    } else if self.pfs {
                        self.go(EntryStage::Key, EntryAction::MakeKey)
                    } else {
                        self.go(EntryStage::Template, EntryAction::FetchAnswer)
                    }
                },
                _ => self.over(EntryAction::Close),
            },
            EntryEvent::Answer(rtt, jitter) => match self.stage {
                EntryStage::Template => {
                    if rtt > 0 {
                        let d: u64 = answer_delay_us(rtt, jitter);
                        self.go(EntryStage::Pause, EntryAction::Pause(d))
                    } else {
                        self.go(EntryStage::Answer, EntryAction::SendAnswer)
                    }
                },
                _ => self.over(EntryAction::Close),
            },
            EntryEvent::Done => match self.stage {
                EntryStage::Key => self.go(EntryStage::Template, EntryAction::FetchAnswer),
                EntryStage::Pause => self.go(EntryStage::Answer, EntryAction::SendAnswer),
                EntryStage::Answer => self.go(EntryStage::Tail, EntryAction::Read(CLIENT_TAIL_LEN)),
                EntryStage::Agree => self.over(EntryAction::Serve),
                _ => self.over(EntryAction::Close),
            },
        }
    }
}

/// A stage that only clients with the right token reach.
pub open spec fn trusted(stage: EntryStage) -> bool {
    stage is Key || stage is Template || stage is Pause || stage is Answer || stage is Tail || stage is Agree
}

/// An action that is taken only for clients with the right token: making a key, answering, serving.
pub open spec fn for_trusted(a: EntryAction) -> bool {
    a is MakeKey || a is FetchAnswer || a is Pause || a is SendAnswer || a is Agree || a is Serve
}

/// A client is answered and served only once its token has been found right: these stages are entered
/// from each other, or when the token has just been found right.
pub proof fn law_token_required(s: EntryView, e: EventView)
    ensures
        trusted(entered(s, e).0.stage) || for_trusted(entered(s, e).1) ==> trusted(s.stage) || (s.stage is Token && e
            == EventView::Token(true)),
{
}

/// All that is done for a client, given all that happens.
pub open spec fn actions(s: EntryView, es: Seq<EventView>) -> Seq<EntryAction>
    decreases es.len(),
{
    if es.len() == 0 {
        seq![]
    } else {
        let x = entered(s, es[0]);
        seq![x.1] + actions(x.0, es.drop_first())
    }
}

/// Whatever a client sends and whatever else happens: as long as its token is not found right, it is
/// neither answered nor served.
pub proof fn law_strangers_not_served(s: EntryView, es: Seq<EventView>, k: int)
    requires
        !trusted(s.stage),
        forall|i: int| 0 <= i < es.len() ==> #[trigger] es[i] != EventView::Token(true),
        0 <= k < es.len(),
    ensures
        actions(s, es).len() == es.len(),
        !for_trusted(actions(s, es)[k]),
    decreases es.len(),
{
    let x = entered(s, es[0]);
    let rest = es.drop_first();
    law_token_required(s, es[0]);
    assert forall|i: int| 0 <= i < rest.len() implies #[trigger] rest[i] != EventView::Token(true) by {
        assert(rest[i] == es[i + 1]);
    }
    if rest.len() > 0 {
        law_strangers_not_served(
            x.0,
            rest,
            if k == 0 {
                0
            } else {
                k - 1
            },
        );
    } else {
        assert(actions(x.0, rest).len() == 0);
    }
}

/// The camouflage site is shown only to clients whose whole first record has been read, and it is shown
/// that record.
pub proof fn law_camouflage_sees_record(s: EntryView, e: EventView)
    requires
        entered(s, e).1 is Camouflage,
    ensures
        match (s.stage, e) {
            (EntryStage::Token, _) => entered(s, e).0.hello == s.hello,
            (EntryStage::Body(_, n), EventView::Bytes(b)) => b.len() == n && entered(s, e).0.hello == s.hello + b,
            _ => false,
        },
{
}

/// Nothing comes after the end.
pub proof fn law_over_is_final(s: EntryView, e: EventView)
    requires
        s.stage is Over,
    ensures
        entered(s, e) == (s, EntryAction::Close),
{
}

/// What a direction of the server's relay is told.
#[derive(Clone, Copy, PartialEq, Eq, Structural, Debug)]
pub enum ServeEvent {
    /// So many bytes were read; none is the end where they come from the target.
    Read(usize),
    /// They were written.
    Written,
    /// Reading or writing failed, or there was nothing to read for too long.
    Failed,
}

/// What a direction of the server's relay does next.
#[derive(Clone, Copy, PartialEq, Eq, Structural, Debug)]
pub enum ServeAction {
    Read,
    Write,
    /// Close the connection to the target.
    Stop,
    /// Tell the client that nothing more comes, and close the connection to the target.
    NotifyAndStop,
}

/// What a direction of the server's relay does next.
pub open spec fn serve_step(upload: bool, e: ServeEvent) -> ServeAction {
    match e {
        ServeEvent::Read(n) => if upload || n > 0 {
            ServeAction::Write
        } else {
            ServeAction::NotifyAndStop
        },
        ServeEvent::Written => ServeAction::Read,
        ServeEvent::Failed => if upload {
            ServeAction::Stop
        } else {
            ServeAction::NotifyAndStop
        },
    }
}

/// What a direction of the server's relay does next. Towards the target the end of a message is no end
/// of the stream; towards the client it is, and the client is always told of the end.
pub fn serve_next(upload: bool, e: ServeEvent) -> (r: ServeAction)
    ensures
        r == serve_step(upload, e),
{
    match e {
        ServeEvent::Read(n) => {
            if upload || n > 0 {
                ServeAction::Write
            } else {
                ServeAction::NotifyAndStop
            }
        },
        ServeEvent::Written => ServeAction::Read,
        ServeEvent::Failed => {
            if upload {
                ServeAction::Stop
            } else {
                ServeAction::NotifyAndStop
            }
        },
    }
}

/// How long a relay may stay without traffic, in seconds: as the environment asks, but at least five
/// seconds; half an hour where it does not say.
pub open spec fn idle_limit(asked: Option<Seq<char>>) -> int {
    match asked {
        None => RELAY_IDLE_SECS as int,
        Some(t) => match uint_text(trimmed(t), 0xffff_ffff_ffff_ffff) {
            None => RELAY_IDLE_SECS as int,
            Some(n) => if n < 5 {
                5
            } else {
                n
            },
        },
    }
}

/// How long a relay may stay without traffic, in seconds, by what the environment asks for.
pub fn relay_idle(asked: &Option<String>) -> (r: u64)
    ensures
        r == idle_limit(crate::text::opt_text(*asked)),
{
    match asked {
        None => RELAY_IDLE_SECS,
        Some(t) => {
            let c: Vec<char> = chars_of(t.as_str());
            match parse_uint(trim(c.as_slice()), u64::MAX) {
                None => RELAY_IDLE_SECS,
                Some(n) => {
                    if n < 5 {
                        5
                    } else {
                        n
                    }
                },
            }
        },
    }
}

proof fn lemma_actions_step(s: EntryView, e: EventView, es: Seq<EventView>)
    ensures
        actions(s, seq![e] + es) == seq![entered(s, e).1] + actions(entered(s, e).0, es),
{
    assert((seq![e] + es).drop_first() =~= es);
}

/// A head and a body that make up one record of no more than 16384 bytes.
pub open spec fn is_record(head: Seq<u8>, body: Seq<u8>) -> bool {
    head.len() == 5 && 256 * head[3] + head[4] == body.len() && 1 <= body.len() <= 16384
}

/// A record of a handshake that holds a client hello with a session of thirty-two bytes.
pub open spec fn is_hello(head: Seq<u8>, body: Seq<u8>) -> bool {
    is_record(head, body) && head[0] == 0x16 && body.len() >= 71 && body[0] == 1 && body[38] == 32
}

/// What happens with a client whose hello is read and whose token is right, as long as all goes well.
pub open spec fn welcome(pfs: bool, head: Seq<u8>, body: Seq<u8>, rtt: u64, jitter: u64, tail: Seq<u8>) -> Seq<EventView> {
    seq![EventView::Bytes(head)] + (seq![EventView::Bytes(body)] + (seq![EventView::Token(true)] + welcome_known(
        pfs,
        rtt,
        jitter,
        tail,
    )))
}

/// The part of it that follows the check of the token.
pub open spec fn welcome_known(pfs: bool, rtt: u64, jitter: u64, tail: Seq<u8>) -> Seq<EventView> {
    let after = seq![EventView::Done] + (seq![EventView::Bytes(tail)] + (if pfs {
        seq![EventView::Done]
    } else {
        seq![]
    }));
    let answered = seq![EventView::Answer(rtt, jitter)] + (if rtt > 0 {
        seq![EventView::Done] + after
    } else {
        after
    });
    if pfs {
        seq![EventView::Done] + answered
    } else {
        answered
    }
}

proof fn lemma_welcome_known(s: EntryView, rtt: u64, jitter: u64, tail: Seq<u8>)
    requires
        s.stage is Token,
        tail.len() == 64,
    ensures
        ({
            let acts = actions(s, seq![EventView::Token(true)] + welcome_known(s.pfs, rtt, jitter, tail));
            let pause = if rtt > 0 {
                seq![EntryAction::Pause(pause_us(rtt as int, jitter as int) as u64)]
            } else {
                seq![]
            };
            acts == if s.pfs {
                seq![EntryAction::MakeKey, EntryAction::FetchAnswer] + pause + seq![
                    EntryAction::SendAnswer,
                    EntryAction::Read(64),
                    EntryAction::Agree,
                    EntryAction::Serve,
                ]
            } else {
                seq![EntryAction::FetchAnswer] + pause + seq![
                    EntryAction::SendAnswer,
                    EntryAction::Read(64),
                    EntryAction::Serve,
                ]
            }
        }),
{
    let pfs = s.pfs;
    let last: Seq<EventView> = if pfs {
        seq![EventView::Done]
    } else {
        seq![]
    };
    let t = seq![EventView::Bytes(tail)] + last;
    let after = seq![EventView::Done] + t;
    let waited = seq![EventView::Done] + after;
    let answered = seq![EventView::Answer(rtt, jitter)] + (if rtt > 0 {
        waited
    } else {
        after
    });
    let known = welcome_known(pfs, rtt, jitter, tail);
    lemma_actions_step(s, EventView::Token(true), known);
    let s1 = entered(s, EventView::Token(true)).0;
    if pfs {
        lemma_actions_step(s1, EventView::Done, answered);
    }
    let s2 = if pfs {
        entered(s1, EventView::Done).0
    } else {
        s1
    };
    lemma_actions_step(
        s2,
        EventView::Answer(rtt, jitter),
        if rtt > 0 {
            waited
        } else {
            after
        },
    );
    let s3 = entered(s2, EventView::Answer(rtt, jitter)).0;
    if rtt > 0 {
        lemma_actions_step(s3, EventView::Done, after);
    }
    let s4 = if rtt > 0 {
        entered(s3, EventView::Done).0
    } else {
        s3
    };
    lemma_actions_step(s4, EventView::Done, t);
    let s5 = entered(s4, EventView::Done).0;
    lemma_actions_step(s5, EventView::Bytes(tail), last);
    let s6 = entered(s5, EventView::Bytes(tail)).0;
    if pfs {
        lemma_actions_step(s6, EventView::Done, seq![]);
        assert(last + seq![] =~= last);
        assert(actions(entered(s6, EventView::Done).0, seq![]) =~= seq![]);
    } else {
        assert(actions(s6, last) =~= seq![]);
    }
}

/// A client with the right token is answered and served, with a key of its own or without: its hello is
/// read, its token checked, the answer fetched, sent after a pause where one is due, the end of its
/// handshake read, the key agreed on where there is one, and then the exchange begins.
pub proof fn law_right_token_served(
    s: EntryView,
    head: Seq<u8>,
    body: Seq<u8>,
    rtt: u64,
    jitter: u64,
    tail: Seq<u8>,
)
    requires
        s.stage is Head,
        is_hello(head, body),
        tail.len() == 64,
    ensures
        ({
            let acts = actions(s, welcome(s.pfs, head, body, rtt, jitter, tail));
            let read = seq![EntryAction::Read(body.len() as usize), EntryAction::CheckToken];
            let pause = if rtt > 0 {
                seq![EntryAction::Pause(pause_us(rtt as int, jitter as int) as u64)]
            } else {
                seq![]
            };
            &&& acts.last() is Serve
            &&& acts == read + (if s.pfs {
                seq![EntryAction::MakeKey, EntryAction::FetchAnswer] + pause + seq![
                    EntryAction::SendAnswer,
                    EntryAction::Read(64),
                    EntryAction::Agree,
                    EntryAction::Serve,
                ]
            } else {
                seq![EntryAction::FetchAnswer] + pause + seq![
                    EntryAction::SendAnswer,
                    EntryAction::Read(64),
                    EntryAction::Serve,
                ]
            })
        }),
{
    let known = seq![EventView::Token(true)] + welcome_known(s.pfs, rtt, jitter, tail);
    lemma_actions_step(s, EventView::Bytes(head), seq![EventView::Bytes(body)] + known);
    let s1 = entered(s, EventView::Bytes(head)).0;
    lemma_actions_step(s1, EventView::Bytes(body), known);
    let s2 = entered(s1, EventView::Bytes(body)).0;
    lemma_welcome_known(s2, rtt, jitter, tail);
    let acts = actions(s, welcome(s.pfs, head, body, rtt, jitter, tail));
    let read = seq![EntryAction::Read(body.len() as usize), EntryAction::CheckToken];
    assert(acts =~= read + actions(s2, known));
}

/// What is checked and kept of a client's first record: all of it, the session as the token, and the
/// random bytes.
pub proof fn law_hello_kept(s: EntryView, head: Seq<u8>, body: Seq<u8>)
    requires
        s.stage is Head,
        is_hello(head, body),
    ensures
        ({
            let at_token = entered(entered(s, EventView::Bytes(head)).0, EventView::Bytes(body)).0;
            &&& at_token.hello == head + body
            &&& at_token.token == body.subrange(39, 71)
            &&& at_token.random == body.subrange(6, 38)
            &&& at_token.pfs == s.pfs
        }),
{
}

/// Every other client that sends a whole record is shown the camouflage site with that record: one
/// whose record is no hello, and one whose token is wrong.
pub proof fn law_others_shown_site(s: EntryView, head: Seq<u8>, body: Seq<u8>)
    requires
        s.stage is Head,
        is_record(head, body),
    ensures
        ({
            let read = entered(s, EventView::Bytes(head));
            let judged = entered(read.0, EventView::Bytes(body));
            let refused = entered(judged.0, EventView::Token(false));
            &&& read.1 == EntryAction::Read(body.len() as usize)
            &&& if is_hello(head, body) {
                judged.1 is CheckToken && refused.1 is Camouflage && refused.0.hello == head + body
                    && refused.0.stage is Over
            } else {
                judged.1 is Camouflage && judged.0.hello == head + body && judged.0.stage is Over
            }
        }),
{
}

/// A record without a body, or with too long a one, and anything that fails, ends the connection
/// without a word, as does a part that comes in another length than was asked for.
pub proof fn law_failures_close(s: EntryView, b: Seq<u8>)
    ensures
        entered(s, EventView::Failed).1 is Close,
        entered(s, EventView::Failed).0.stage is Over,
        s.stage is Head && (b.len() != 5 || 256 * b[3] + b[4] == 0 || 256 * b[3] + b[4] > 16384) ==> entered(
            s,
            EventView::Bytes(b),
        ).1 is Close,
        s.stage matches EntryStage::Body(_, n) && b.len() != n ==> entered(s, EventView::Bytes(b)).1 is Close,
        s.stage is Tail && b.len() != 64 ==> entered(s, EventView::Bytes(b)).1 is Close,
{
}

/// The pause before an answer is the round trip time, varied by a quarter either way: it grows with the
/// number that is drawn, from three quarters to five quarters of it.
pub proof fn law_pause_near_rtt(rtt: u64, jitter: u64)
    requires
        jitter <= 50,
        rtt * 125 <= u64::MAX,
    ensures
        75 * rtt <= 100 * pause_us(rtt as int, jitter as int) + 99,
        100 * pause_us(rtt as int, jitter as int) <= 125 * rtt,
        pause_us(rtt as int, 25) == rtt,
        jitter < 50 ==> pause_us(rtt as int, jitter as int) <= pause_us(rtt as int, jitter + 1),
        pause_us(rtt as int, 0) == 3 * rtt / 4,
        pause_us(rtt as int, 50) == 5 * rtt / 4,
{
    let r = rtt as int;
    let j = jitter as int;
    assert(75 * r <= r * (75 + j) <= 125 * r) by (nonlinear_arith)
        requires
            0 <= r,
            0 <= j <= 50,
    ;
    if j < 50 {
        assert(r * (75 + j) <= r * (75 + (j + 1)) <= 125 * r) by (nonlinear_arith)
            requires
                0 <= r,
                0 <= j < 50,
        ;
    }
}

/// A relay may stay without traffic as long as the environment asks, but at least five seconds, and
/// half an hour where it asks nothing.
pub proof fn law_idle_as_asked(n: u64)
    ensures
        idle_limit(None) == 1800,
        idle_limit(Some(crate::text::decimal(n as nat))) == if n < 5 {
            5
        } else {
            n as int
        },
{
    crate::text::law_decimal_trimmed(n as nat);
    crate::text::law_decimal_roundtrip(n as nat, 0xffff_ffff_ffff_ffff);
}

/// Whatever a client sends is written to the target, and what the target sends is written to the client
/// until its end. A direction stops exactly at a failure, and towards the client at the end too; the client
/// is told of the end of what comes to it, and of nothing else.
pub proof fn law_served_directions(upload: bool, e: ServeEvent, n: usize)
    ensures
        serve_step(true, ServeEvent::Read(n)) is Write,
        serve_step(false, ServeEvent::Read(n)) is Write <==> n > 0,
        serve_step(upload, ServeEvent::Written) is Read,
        serve_step(upload, e) is Read <==> e is Written,
        serve_step(upload, e) is Stop <==> upload && e is Failed,
        serve_step(upload, e) is NotifyAndStop <==> !upload && (e is Failed || e == ServeEvent::Read(0)),
{
}

} // verus!
