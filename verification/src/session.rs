//! The course of a connection and of a flow of datagrams: what is done one after another, from the
//! choice of an exit to the relay, and that any failure ends it.

use vstd::prelude::*;
use vstd::utf8::encode_utf8;

use crate::address::{frame_target, target_header};
use crate::handler::{opening_messages, Exit};
use crate::ip::SocketAddr;
use crate::transparent_udp::{direct_target, plan_flow, FlowPlan, FlowSink};

verus! {

/// How far a connection has come.
#[derive(Clone, Copy, PartialEq, Eq, Structural, Debug)]
pub enum PassStage {
    /// The rules are asked for an exit.
    Route,
    /// A tunnel is taken from the pool.
    Take,
    /// The target is sent through the tunnel.
    Target,
    /// What the client has sent already is sent through the tunnel.
    Payload,
    /// The target is connected to.
    Connect,
    /// What the client has sent already is written to the target.
    First,
    /// Bytes are relayed.
    Relay,
    /// It is over.
    Over,
}

/// What came of the last step.
#[derive(Clone, Copy, PartialEq, Eq, Structural, Debug)]
pub enum PassEvent {
    /// The exit, where the outbound that the rules name is there.
    Exit(Option<Exit>),
    /// It worked.
    Done,
    /// It failed.
    Failed,
}

/// What is done next.
#[derive(Clone, Copy, PartialEq, Eq, Structural, Debug)]
pub enum PassAction {
    /// Take a tunnel of the server at this place.
    TakeTunnel(usize),
    /// Send the target through the tunnel.
    SendTarget,
    /// Send what the client has sent already through the tunnel.
    SendPayload,
    /// Relay through the tunnel.
    RelayTunnel,
    /// Connect to the target.
    Connect,
    /// Write what the client has sent already to the target.
    WritePayload,
    /// Relay directly.
    RelayDirect,
    /// Close the connection.
    Close,
}

/// A connection: how far it has come, its target, and what the client has sent already.
pub struct Passage {
    pub stage: PassStage,
    pub target: String,
    pub payload: Vec<u8>,
}

/// The next stage and what is done next. `early` says whether the client has sent something already.
pub open spec fn passed(stage: PassStage, early: bool, e: PassEvent) -> (PassStage, PassAction) {
    match (stage, e) {
        (PassStage::Route, PassEvent::Exit(Some(Exit::Tunnel(i)))) => (PassStage::Take, PassAction::TakeTunnel(i)),
        (PassStage::Route, PassEvent::Exit(Some(Exit::Direct))) => (PassStage::Connect, PassAction::Connect),
        (PassStage::Take, PassEvent::Done) => (PassStage::Target, PassAction::SendTarget),
        (PassStage::Target, PassEvent::Done) => if early {
            (PassStage::Payload, PassAction::SendPayload)
        } else {
            (PassStage::Relay, PassAction::RelayTunnel)
        },
        (PassStage::Payload, PassEvent::Done) => (PassStage::Relay, PassAction::RelayTunnel),
        (PassStage::Connect, PassEvent::Done) => if early {
            (PassStage::First, PassAction::WritePayload)
        } else {
            (PassStage::Relay, PassAction::RelayDirect)
        },
        (PassStage::First, PassEvent::Done) => (PassStage::Relay, PassAction::RelayDirect),
        _ => (PassStage::Over, PassAction::Close),
    }
}

impl Passage {
    /// A connection to a target, for which the rules have to be asked.
    pub fn new(target: String, payload: Vec<u8>) -> (r: Passage)
        ensures
            r.stage == PassStage::Route,
            r.target == target,
            r.payload == payload,
    {
        Passage { stage: PassStage::Route, target, payload }
    }

    /// The message that names the target to a server.
    pub fn target_message(&self) -> (r: Vec<u8>)
        ensures
            r@ == target_header(self.target@),
    {
        frame_target(self.target.as_str())
    }

    /// Takes in what came of the last step, and says what is done next.
    pub fn on(&mut self, e: PassEvent) -> (r: PassAction)
        ensures
            (final(self).stage, r) == passed(old(self).stage, old(self).payload@.len() > 0, e),
            final(self).target == old(self).target,
            final(self).payload == old(self).payload,
    {
        let early: bool = self.payload.len() > 0;
        let next: (PassStage, PassAction) = match (self.stage, e) {
            (PassStage::Route, PassEvent::Exit(Some(Exit::Tunnel(i)))) => (PassStage::Take, PassAction::TakeTunnel(i)),
            (PassStage::Route, PassEvent::Exit(Some(Exit::Direct))) => (PassStage::Connect, PassAction::Connect),
            (PassStage::Take, PassEvent::Done) => (PassStage::Target, PassAction::SendTarget),
            (PassStage::Target, PassEvent::Done) => {
                if early {
                    (PassStage::Payload, PassAction::SendPayload)
                } else {
                    (PassStage::Relay, PassAction::RelayTunnel)
                }
            },
            (PassStage::Payload, PassEvent::Done) => (PassStage::Relay, PassAction::RelayTunnel),
            (PassStage::Connect, PassEvent::Done) => {
                if early {
                    (PassStage::First, PassAction::WritePayload)
                } else {
                    (PassStage::Relay, PassAction::RelayDirect)
                }
            },
            (PassStage::First, PassEvent::Done) => (PassStage::Relay, PassAction::RelayDirect),
            _ => (PassStage::Over, PassAction::Close),
        };
        self.stage = next.0;
        next.1
    }
}

/// Whatever the rules say but an exit, and whatever fails, the connection is closed; nothing is sent
/// for it any more.
pub proof fn law_failure_closes(stage: PassStage, early: bool)
    ensures
        passed(stage, early, PassEvent::Failed) == (PassStage::Over, PassAction::Close),
        passed(stage, early, PassEvent::Exit(None)) == (PassStage::Over, PassAction::Close),
        passed(stage, early, PassEvent::Exit(Some(Exit::Refused))) == (PassStage::Over, PassAction::Close),
        passed(PassStage::Over, early, PassEvent::Done) == (PassStage::Over, PassAction::Close),
{
}

/// What an action sends through a tunnel.
pub open spec fn sent_by(a: PassAction, target: Seq<char>, payload: Seq<u8>) -> Seq<Seq<u8>> {
    match a {
        PassAction::SendTarget => seq![target_header(target)],
        PassAction::SendPayload => seq![payload],
        _ => seq![],
    }
}

/// Where all goes well, exactly the target and then what the client had sent already are sent through
/// a tunnel before the relay begins.
pub proof fn law_tunnel_opened(target: Seq<char>, payload: Seq<u8>, i: usize)
    ensures
        ({
            let early = payload.len() > 0;
            let a = passed(PassStage::Route, early, PassEvent::Exit(Some(Exit::Tunnel(i))));
            let b = passed(a.0, early, PassEvent::Done);
            let c = passed(b.0, early, PassEvent::Done);
            let d = passed(c.0, early, PassEvent::Done);
            &&& a.1 == PassAction::TakeTunnel(i)
            &&& if early {
                d.1 == PassAction::RelayTunnel
            } else {
                c.1 == PassAction::RelayTunnel
            }
            &&& sent_by(b.1, target, payload) + sent_by(c.1, target, payload) == opening_messages(target, payload)
        }),
{
    let early = payload.len() > 0;
    let a = passed(PassStage::Route, early, PassEvent::Exit(Some(Exit::Tunnel(i))));
    let b = passed(a.0, early, PassEvent::Done);
    let c = passed(b.0, early, PassEvent::Done);
    assert(sent_by(b.1, target, payload) + sent_by(c.1, target, payload) =~= opening_messages(target, payload));
}

/// How far setting up a flow has come.
#[derive(Clone, Copy, PartialEq, Eq, Structural, Debug)]
pub enum SetupStage {
    /// The rules are asked for an exit.
    Route,
    /// The name is resolved.
    Resolve,
    /// A socket is made for the target.
    Connect,
    /// A tunnel is taken from the pool.
    Take,
    /// The tunnel is told to carry datagrams.
    Sentinel,
    /// The socket for answers is acquired.
    Reply(FlowSink),
    /// The flow is there.
    Running(FlowSink),
    /// It is over.
    Over,
}

/// What came of the last step.
#[derive(Clone, Copy, PartialEq, Eq, Debug)]
pub enum SetupEvent {
    /// The exit, where the outbound that the rules name is there.
    Exit(Option<Exit>),
    /// The address of the name.
    Resolved(SocketAddr),
    /// It worked.
    Done,
    /// It failed.
    Failed,
}

/// What is done next.
pub enum SetupAction {
    /// Drop the flow.
    Drop,
    /// Resolve a name, for a port.
    Resolve(String, u16),
    /// Make a socket for a target.
    Connect(SocketAddr),
    /// Take a tunnel of the server at this place.
    TakeTunnel(usize),
    /// Tell the tunnel to carry datagrams.
    SendSentinel,
    /// Acquire the socket for answers.
    AcquireReply,
    /// Enter the flow, and carry its datagrams.
    Run(FlowSink),
}

/// What is done next, as a value.
#[verifier::ext_equal]
pub enum SetupView {
    Drop,
    Resolve(Seq<char>, u16),
    Connect(SocketAddr),
    TakeTunnel(usize),
    SendSentinel,
    AcquireReply,
    Run(FlowSink),
}

impl View for SetupAction {
    type V = SetupView;

    open spec fn view(&self) -> SetupView {
        match *self {
            SetupAction::Drop => SetupView::Drop,
            SetupAction::Resolve(h, p) => SetupView::Resolve(h@, p),
            SetupAction::Connect(a) => SetupView::Connect(a),
            SetupAction::TakeTunnel(i) => SetupView::TakeTunnel(i),
            SetupAction::SendSentinel => SetupView::SendSentinel,
            SetupAction::AcquireReply => SetupView::AcquireReply,
            SetupAction::Run(s) => SetupView::Run(s),
        }
    }
}

/// A flow that is set up: how far that has come, the name that its address stands for, and its port.
pub struct FlowSetup {
    pub stage: SetupStage,
    pub domain: Option<String>,
    pub port: u16,
}

/// The next stage and what is done next.
pub open spec fn set_on(stage: SetupStage, domain: Option<Seq<char>>, port: u16, e: SetupEvent) -> (
    SetupStage,
    SetupView,
) {
    match (stage, e) {
        (SetupStage::Route, SetupEvent::Exit(Some(x))) => match (x, domain) {
            (Exit::Direct, Some(d)) => (SetupStage::Resolve, SetupView::Resolve(d, port)),
            (Exit::Tunnel(i), Some(d)) => if encode_utf8(d).len() <= 255 {
                (SetupStage::Take, SetupView::TakeTunnel(i))
            } else {
                (SetupStage::Over, SetupView::Drop)
            },
            _ => (SetupStage::Over, SetupView::Drop),
        },
        (SetupStage::Resolve, SetupEvent::Resolved(a)) => if a is V6 {
            (SetupStage::Over, SetupView::Drop)
        } else {
            (SetupStage::Connect, SetupView::Connect(a))
        },
        (SetupStage::Connect, SetupEvent::Done) => (SetupStage::Reply(FlowSink::Direct), SetupView::AcquireReply),
        (SetupStage::Take, SetupEvent::Done) => (SetupStage::Sentinel, SetupView::SendSentinel),
        (SetupStage::Sentinel, SetupEvent::Done) => (SetupStage::Reply(FlowSink::Mirage), SetupView::AcquireReply),
        (SetupStage::Reply(s), SetupEvent::Done) => (SetupStage::Running(s), SetupView::Run(s)),
        _ => (SetupStage::Over, SetupView::Drop),
    }
}

impl FlowSetup {
    /// A flow for which the rules have to be asked.
    pub fn new(domain: Option<String>, port: u16) -> (r: FlowSetup)
        ensures
            r.stage == SetupStage::Route,
            r.domain == domain,
            r.port == port,
    {
        FlowSetup { stage: SetupStage::Route, domain, port }
    }

    /// Takes in what came of the last step, and says what is done next.
    pub fn on(&mut self, e: SetupEvent) -> (r: SetupAction)
        ensures
            (final(self).stage, r@) == set_on(
                old(self).stage,
                crate::text::opt_text(old(self).domain),
                old(self).port,
                e,
            ),
            final(self).domain == old(self).domain,
            final(self).port == old(self).port,
    {
        let next: (SetupStage, SetupAction) = match (self.stage, e) {
            (SetupStage::Route, SetupEvent::Exit(Some(x))) => {
                let name: Option<String> = match &self.domain {
                    Some(d) => Some(d.clone()),
                    None => None,
                };
                match plan_flow(x, name, self.port) {
                    FlowPlan::Dropped => (SetupStage::Over, SetupAction::Drop),
                    FlowPlan::Resolve(h, p) => (SetupStage::Resolve, SetupAction::Resolve(h, p)),
                    FlowPlan::Tunnel(i, _) => (SetupStage::Take, SetupAction::TakeTunnel(i)),
                }
            },
            (SetupStage::Resolve, SetupEvent::Resolved(a)) => match direct_target(a) {
                None => (SetupStage::Over, SetupAction::Drop),
                Some(t) => (SetupStage::Connect, SetupAction::Connect(t)),
            },
            (SetupStage::Connect, SetupEvent::Done) => (SetupStage::Reply(FlowSink::Direct), SetupAction::AcquireReply),
            (SetupStage::Take, SetupEvent::Done) => (SetupStage::Sentinel, SetupAction::SendSentinel),
            (SetupStage::Sentinel, SetupEvent::Done) => (
                SetupStage::Reply(FlowSink::Mirage),
                SetupAction::AcquireReply,
            ),
            (SetupStage::Reply(s), SetupEvent::Done) => (SetupStage::Running(s), SetupAction::Run(s)),
            _ => (SetupStage::Over, SetupAction::Drop),
        };
        self.stage = next.0;
        next.1
    }
}

/// A flow is entered exactly where its socket for answers has just been acquired; one that is dropped
/// on the way has acquired none that it would have to give back.
pub proof fn law_reply_just_before_run(stage: SetupStage, domain: Option<Seq<char>>, port: u16, e: SetupEvent)
    ensures
        set_on(stage, domain, port, e).1 is Run <==> stage is Reply && e is Done,
        set_on(stage, domain, port, e).1 is AcquireReply <==> set_on(stage, domain, port, e).0 is Reply,
{
}

/// A flow whose address stands for no name is dropped.
pub proof fn law_nameless_dropped(port: u16, e: SetupEvent)
    ensures
        set_on(SetupStage::Route, None, port, e) == (SetupStage::Over, SetupView::Drop),
{
}

/// A direct connection: the target is connected to, what the client has sent already is written to it
/// where there is anything, and then bytes are relayed.
pub proof fn law_direct_opened(early: bool)
    ensures
        ({
            let a = passed(PassStage::Route, early, PassEvent::Exit(Some(Exit::Direct)));
            let b = passed(a.0, early, PassEvent::Done);
            let c = passed(b.0, early, PassEvent::Done);
            &&& a.1 == PassAction::Connect
            &&& early ==> b.1 == PassAction::WritePayload && c.1 == PassAction::RelayDirect && c.0 == PassStage::Relay
            &&& !early ==> b.1 == PassAction::RelayDirect && b.0 == PassStage::Relay
        }),
{
}

/// A connection through a tunnel step by step: a tunnel of the server is taken, the target is sent, then
/// what the client has sent already where there is anything, and then bytes are relayed.
pub proof fn law_tunnel_steps(early: bool, i: usize)
    ensures
        ({
            let a = passed(PassStage::Route, early, PassEvent::Exit(Some(Exit::Tunnel(i))));
            let b = passed(a.0, early, PassEvent::Done);
            let c = passed(b.0, early, PassEvent::Done);
            let d = passed(c.0, early, PassEvent::Done);
            &&& a.1 == PassAction::TakeTunnel(i)
            &&& b.1 == PassAction::SendTarget
            &&& early ==> c.1 == PassAction::SendPayload && d.1 == PassAction::RelayTunnel && d.0 == PassStage::Relay
            &&& !early ==> c.1 == PassAction::RelayTunnel && c.0 == PassStage::Relay
        }),
{
}

/// A relay that ends closes the connection, however it ended.
pub proof fn law_relay_ends(early: bool, e: PassEvent)
    ensures
        passed(PassStage::Relay, early, e) == (PassStage::Over, PassAction::Close),
{
}

/// A flow that leaves directly: its name is resolved for its port, a socket is made for an address of
/// version 4, the socket for answers is acquired, and the flow runs. An address of version 6 drops it.
pub proof fn law_direct_flow(name: Seq<char>, port: u16, a: SocketAddr)
    ensures
        ({
            let s1 = set_on(SetupStage::Route, Some(name), port, SetupEvent::Exit(Some(Exit::Direct)));
            let s2 = set_on(s1.0, Some(name), port, SetupEvent::Resolved(a));
            let s3 = set_on(s2.0, Some(name), port, SetupEvent::Done);
            let s4 = set_on(s3.0, Some(name), port, SetupEvent::Done);
            &&& s1.1 == SetupView::Resolve(name, port)
            &&& a is V6 ==> s2.1 is Drop && s2.0 is Over
            &&& a is V4 ==> s2.1 == SetupView::Connect(a) && s3.1 is AcquireReply && s4.1 == SetupView::Run(FlowSink::Direct)
                && s4.0 == SetupStage::Running(FlowSink::Direct)
        }),
{
}

/// A flow that leaves through a server: a tunnel is taken and told to carry datagrams, the socket for
/// answers is acquired, and the flow runs. A name of more than two hundred and fifty-five bytes drops it.
pub proof fn law_tunnel_flow(name: Seq<char>, port: u16, i: usize)
    ensures
        ({
            let s1 = set_on(SetupStage::Route, Some(name), port, SetupEvent::Exit(Some(Exit::Tunnel(i))));
            let s2 = set_on(s1.0, Some(name), port, SetupEvent::Done);
            let s3 = set_on(s2.0, Some(name), port, SetupEvent::Done);
            let s4 = set_on(s3.0, Some(name), port, SetupEvent::Done);
            &&& encode_utf8(name).len() > 255 ==> s1.1 is Drop && s1.0 is Over
            &&& encode_utf8(name).len() <= 255 ==> s1.1 == SetupView::TakeTunnel(i) && s2.1 is SendSentinel && s3.1 is AcquireReply
                && s4.1 == SetupView::Run(FlowSink::Mirage) && s4.0 == SetupStage::Running(FlowSink::Mirage)
        }),
{
}

/// Whatever fails, and whatever the rules say but an exit, the flow is dropped; and it stays dropped.
pub proof fn law_flow_failure_drops(stage: SetupStage, domain: Option<Seq<char>>, port: u16, e: SetupEvent)
    ensures
        set_on(stage, domain, port, SetupEvent::Failed) == (SetupStage::Over, SetupView::Drop),
        set_on(stage, domain, port, SetupEvent::Exit(None)) == (SetupStage::Over, SetupView::Drop),
        set_on(stage, domain, port, SetupEvent::Exit(Some(Exit::Refused))) == (SetupStage::Over, SetupView::Drop),
        set_on(SetupStage::Over, domain, port, e) == (SetupStage::Over, SetupView::Drop),
{
}

} // verus!
