//! Serving a client's connection: what its target means, which outbound carries it, and the relay of
//! bytes in both directions.

use vstd::prelude::*;

use crate::address::target_header;
use crate::ip::{ip_text, opt_ip, parse_ip_str, IpAddr, IpView};
use crate::manager::OutboundManager;
use crate::outbound::{leaf, OutboundNode};
use crate::resolver::{host_and_port, law_no_target, law_target_split, split_host_port};
use crate::text::{decimal, digit_char, opt_text, push_decimal, push_text, string_of};
use crate::wire::{find_bytes, found_at};

verus! {

/// How long a relay may stay without traffic, in seconds.
pub const MIRAGE_RELAY_IDLE_SECS: u64 = 1800;

/// How long the rest of a direction is drained after its end, in milliseconds.
pub const DRAIN_MS: u64 = 500;

/// The nearest multiple of `d` to `a`, in units of `d`; of two, the even one.
pub open spec fn round_even(a: int, d: int) -> int {
    let q = a / d;
    let r = a % d;
    if 2 * r > d || (2 * r == d && q % 2 == 1) {
        q + 1
    } else {
        q
    }
}

/// The distance of the numbers with fifty-three significant bits around `n`.
pub open spec fn quantum(n: int) -> int
    decreases n,
{
    if n < 0x20_0000_0000_0000 {
        1
    } else {
        2 * quantum(n / 2)
    }
}

/// `n` to fifty-three significant bits.
pub open spec fn significant(n: int) -> int {
    round_even(n, quantum(n)) * quantum(n)
}

/// Tenths of a unit, with one digit behind the point.
pub open spec fn tenths_text(t: nat) -> Seq<char> {
    decimal(t / 10) + seq!['.', digit_char((t % 10) as int)]
}

/// A number of bytes, for people.
pub open spec fn human_text(n: int) -> Seq<char> {
    if n >= 0x10_0000 {
        tenths_text(round_even(10 * significant(n), 0x10_0000) as nat) + seq!['M']
    } else if n >= 0x400 {
        tenths_text(round_even(10 * n, 0x400) as nat) + seq!['K']
    } else {
        decimal(n as nat) + seq!['B']
    }
}

fn round_half_even(a: u128, d: u128) -> (r: u128)
    requires
        0 < d <= 0x1_0000_0000_0000_0000,
        a <= 0x1000_0000_0000_0000_0000_0000,
    ensures
        r == round_even(a as int, d as int),
        r <= a / d + 1,
{
    let q: u128 = a / d;
    let m: u128 = a % d;
    assert(q <= a) by (nonlinear_arith)
        requires
            q == a / d,
            0 < d,
    ;
    if 2 * m > d || (2 * m == d && q % 2 == 1) {
        q + 1
    } else {
        q
    }
}

proof fn lemma_quantum(n: int)
    requires
        0 <= n <= u64::MAX,
    ensures
        1 <= quantum(n) <= 2048,
        n < quantum(n) * 0x20_0000_0000_0000,
{
    vstd::arithmetic::power2::lemma2_to64();
    lemma_quantum_bound(n, 11);
}

proof fn lemma_quantum_bound(n: int, k: nat)
    requires
        0 <= n,
        k <= 11,
        n < vstd::arithmetic::power2::pow2(k) * 0x20_0000_0000_0000,
    ensures
        1 <= quantum(n) <= vstd::arithmetic::power2::pow2(k) <= 2048,
        n < quantum(n) * 0x20_0000_0000_0000,
    decreases k,
{
    vstd::arithmetic::power2::lemma2_to64();
    if k > 0 {
        vstd::arithmetic::power2::lemma_pow2_unfold(k);
    }
    if n >= 0x20_0000_0000_0000 {
        lemma_quantum_bound(n / 2, (k - 1) as nat);
    }
}

fn spacing(n: u64) -> (r: u64)
    ensures
        r == quantum(n as int),
        1 <= r <= 2048,
    decreases n,
{
    proof {
        vstd::arithmetic::power2::lemma2_to64();
        lemma_quantum(n as int);
        lemma_quantum((n / 2) as int);
    }
    if n < 0x20_0000_0000_0000 {
        1
    } else {
        2 * spacing(n / 2)
    }
}

fn push_tenths(out: &mut Vec<char>, t: u64)
    ensures
        final(out)@ == old(out)@ + tenths_text(t as nat),
{
    push_decimal(out, t / 10);
    out.push('.');
    let d: u8 = (t % 10) as u8;
    out.push((48 + d) as char);
    assert(out@ =~= old(out)@ + tenths_text(t as nat));
}

/// A number of bytes, for people: in whole bytes, or with one digit in kilobytes or megabytes.
pub fn human_bytes(n: u64) -> (r: String)
    ensures
        r@ == human_text(n as int),
{
    let mut out: Vec<char> = Vec::new();
    if n >= 0x10_0000 {
        let q: u64 = spacing(n);
        let units: u128 = round_half_even(n as u128, q as u128);
        assert(units <= n / q + 1);
        assert(n / q <= n) by (nonlinear_arith)
            requires
                q >= 1,
        ;
        assert(units * q <= 0x1_0000_0000_0000_1000) by (nonlinear_arith)
            requires
                units <= n / q + 1,
                1 <= q <= 2048,
        ;
        let s: u128 = units * q as u128;
        let t: u128 = round_half_even(10 * s, 0x10_0000);
        assert(t <= 0xffff_ffff_ffff_ffff);
        push_tenths(&mut out, t as u64);
        out.push('M');
    } else if n >= 0x400 {
        let t: u128 = round_half_even(10 * n as u128, 0x400);
        push_tenths(&mut out, t as u64);
        out.push('K');
    } else {
        push_decimal(&mut out, n);
        out.push('B');
    }
    assert(out@ =~= human_text(n as int));
    string_of(out.as_slice())
}

/// What a client's target comes to: the text that is asked for, and what the rules are applied to.
pub struct TargetPlan {
    pub target: String,
    pub host: String,
    pub port: u16,
    pub domain: Option<String>,
    pub ip: Option<IpAddr>,
}

/// The version 4 address of a target; it may stand for a name.
pub open spec fn stand_in(target: Seq<char>) -> Option<Seq<u8>> {
    match host_and_port(target) {
        None => None,
        Some(hp) => match ip_text(hp.0) {
            Some(IpView::V4(o)) => Some(o),
            _ => None,
        },
    }
}

/// The version 4 address of a target that may stand for a name.
pub fn fake_candidate(target: &str) -> (r: Option<[u8; 4]>)
    ensures
        match r {
            Some(o) => stand_in(target@) == Some(o@),
            None => stand_in(target@) is None,
        },
{
    match split_host_port(target) {
        None => None,
        Some(hp) => {
            match parse_ip_str(hp.0.as_str()) {
                Some(IpAddr::V4(o)) => Some(o),
                _ => None,
            }
        },
    }
}

/// The host of a target: the restored name, the part before the port, or nothing.
pub open spec fn target_host(target: Seq<char>, restored: Option<Seq<char>>) -> Seq<char> {
    match host_and_port(target) {
        None => seq![],
        Some(hp) => if restored is Some && stand_in(target) is Some {
            restored->0
        } else {
            hp.0
        },
    }
}

/// The port of a target; zero where it has none.
pub open spec fn target_port(target: Seq<char>) -> u16 {
    match host_and_port(target) {
        None => 0,
        Some(hp) => hp.1,
    }
}

/// The text that is asked for: where the address stood for a name, the name with the port.
pub open spec fn target_wanted(target: Seq<char>, restored: Option<Seq<char>>) -> Seq<char> {
    if restored is Some && stand_in(target) is Some {
        restored->0 + seq![':'] + decimal(target_port(target) as nat)
    } else {
        target
    }
}

/// Works out a target. `restored` is the name that the target's address stands for, where it stands
/// for one.
pub fn plan_target(target: &str, restored: Option<String>) -> (r: TargetPlan)
    ensures
        ({
            let host = target_host(target@, opt_text(restored));
            &&& r.target@ == target_wanted(target@, opt_text(restored))
            &&& r.host@ == host
            &&& r.port == target_port(target@)
            &&& opt_ip(r.ip) == ip_text(host)
            &&& opt_text(r.domain) == if ip_text(host) is None && host.len() > 0 {
                Some(host)
            } else {
                None
            }
        }),
{
    let mut wanted: String = target.to_owned();
    let mut host: String = "".to_owned();
    let mut port: u16 = 0;
    proof {
        reveal_strlit("");
        assert(host@ =~= seq![]);
    }
    match split_host_port(target) {
        None => {},
        Some(hp) => {
            port = hp.1;
            host = hp.0;
            match fake_candidate(target) {
                Some(_) => {
                    match restored {
                        Some(name) => {
                            let mut out: Vec<char> = Vec::new();
                            push_text(&mut out, name.as_str());
                            out.push(':');
                            push_decimal(&mut out, port as u64);
                            assert(out@ =~= name@ + seq![':'] + decimal(port as nat));
                            wanted = string_of(out.as_slice());
                            host = name;
                        },
                        None => {},
                    }
                },
                None => {},
            }
        },
    }
    let ip: Option<IpAddr> = parse_ip_str(host.as_str());
    let chars: Vec<char> = crate::text::chars_of(host.as_str());
    let domain: Option<String> = if ip.is_none() && chars.len() > 0 {
        Some(host.clone())
    } else {
        None
    };
    TargetPlan { target: wanted, host, port, domain, ip }
}

/// How a connection leaves.
#[derive(Clone, Copy, PartialEq, Eq, Structural, Debug)]
pub enum Exit {
    /// Through a tunnel of the server at this place.
    Tunnel(usize),
    /// Directly.
    Direct,
    /// Not at all.
    Refused,
}

/// How a connection leaves through an outbound that is no group. A group that came down to itself,
/// and an outbound that another relay serves, carry nothing here.
pub open spec fn exit_of(n: OutboundNode, i: int) -> Exit {
    match n {
        OutboundNode::Mirage { .. } => Exit::Tunnel(i as usize),
        OutboundNode::Direct { .. } => Exit::Direct,
        _ => Exit::Refused,
    }
}

/// Finds how a connection leaves that the rules gave to the outbound of this name. `None` where there
/// is no such outbound.
pub fn choose_exit(m: &mut OutboundManager, tag: &str) -> (r: Option<Exit>)
    requires
        old(m).wf(),
    ensures
        final(m).wf(),
        final(m).nodes == old(m).nodes,
        final(m).index == old(m).index,
        match r {
            None => !old(m).index@.dom().contains(tag@) && final(m).groups == old(m).groups,
            Some(e) => old(m).index@.dom().contains(tag@) && ({
                let l = leaf(old(m).nodes@, old(m).groups@, old(m).index@[tag@] as int);
                final(m).groups@ == l.0 && e == exit_of(old(m).nodes@[l.1], l.1)
            }),
        },
{
    match m.get(tag) {
        None => None,
        Some(i) => {
            let l: usize = m.resolve_leaf(i);
            match &m.nodes[l] {
                OutboundNode::Mirage { .. } => Some(Exit::Tunnel(l)),
                OutboundNode::Direct { .. } => Some(Exit::Direct),
                _ => Some(Exit::Refused),
            }
        },
    }
}

/// An outbound that refuses never carries a connection.
pub proof fn law_block_refuses(n: OutboundNode, i: int)
    requires
        n is Block,
    ensures
        exit_of(n, i) is Refused,
{
}

/// What is sent first through a tunnel: the target, and what the client has sent already.
pub open spec fn opening_messages(target: Seq<char>, payload: Seq<u8>) -> Seq<Seq<u8>> {
    if payload.len() == 0 {
        seq![target_header(target)]
    } else {
        seq![target_header(target), payload]
    }
}

/// One direction of a relay.
#[derive(Clone, Copy, PartialEq, Eq, Structural, Debug)]
pub enum Phase {
    /// Waiting for bytes.
    Reading,
    /// Passing on this many bytes.
    Writing(u64),
    /// Over.
    Done,
}

/// What happened to one direction of a relay.
#[derive(Clone, Copy, PartialEq, Eq, Structural, Debug)]
pub enum RelayEvent {
    /// So many bytes were read.
    Read(u64),
    /// Reading failed.
    ReadFailed,
    /// Nothing was read for too long.
    Idle,
    /// The bytes were passed on.
    Written,
    /// Passing on failed.
    WriteFailed,
}

/// What one direction of a relay does next.
#[derive(Clone, Copy, PartialEq, Eq, Structural, Debug)]
pub enum RelayAction {
    /// Wait for bytes.
    Read,
    /// Pass on what was read.
    Write,
    /// Tell the other side that nothing more comes, and stop.
    CloseNotify,
    /// Stop.
    Stop,
}

/// One direction of a relay: its phase and the bytes that were passed on.
#[derive(Clone, Copy, PartialEq, Eq, Structural, Debug)]
pub struct Direction {
    pub phase: Phase,
    pub bytes: u64,
}

/// What comes after an event. From the client, the end of its bytes and a failure are passed on as a
/// notice; from a tunnel they just end the direction.
pub open spec fn next_phase(d: Direction, upload: bool, e: RelayEvent) -> (Phase, int, RelayAction) {
    match (d.phase, e) {
        (Phase::Reading, RelayEvent::Read(n)) => if n == 0 && upload {
            (Phase::Done, d.bytes as int, RelayAction::CloseNotify)
        } else {
            (Phase::Writing(n), d.bytes as int, RelayAction::Write)
        },
        (Phase::Reading, RelayEvent::ReadFailed) => (
            Phase::Done,
            d.bytes as int,
            if upload {
                RelayAction::CloseNotify
            } else {
                RelayAction::Stop
            },
        ),
        (Phase::Writing(n), RelayEvent::Written) => (Phase::Reading, d.bytes + n, RelayAction::Read),
        _ => (Phase::Done, d.bytes as int, RelayAction::Stop),
    }
}

impl Direction {
    /// Nothing passed on yet.
    pub fn new() -> (r: Direction)
        ensures
            r.phase == Phase::Reading,
            r.bytes == 0,
    {
        Direction { phase: Phase::Reading, bytes: 0 }
    }

    /// Takes in an event.
    pub fn on(&mut self, upload: bool, e: RelayEvent) -> (r: RelayAction)
        requires
            old(self).phase matches Phase::Writing(n) ==> old(self).bytes + n <= u64::MAX,
        ensures
            ({
                let x = next_phase(*old(self), upload, e);
                final(self).phase == x.0 && final(self).bytes == x.1 && r == x.2
            }),
    {
        match (self.phase, e) {
            (Phase::Reading, RelayEvent::Read(n)) => {
                if n == 0 && upload {
                    self.phase = Phase::Done;
                    RelayAction::CloseNotify
                } else {
                    self.phase = Phase::Writing(n);
                    RelayAction::Write
                }
            },
            (Phase::Reading, RelayEvent::ReadFailed) => {
                self.phase = Phase::Done;
                if upload {
                    RelayAction::CloseNotify
                } else {
                    RelayAction::Stop
                }
            },
            (Phase::Writing(n), RelayEvent::Written) => {
                self.bytes = self.bytes + n;
                self.phase = Phase::Reading;
                RelayAction::Read
            },
            _ => {
                self.phase = Phase::Done;
                RelayAction::Stop
            },
        }
    }
}

/// A direction that is over stays over and counts no more bytes.
pub proof fn law_done_stays(d: Direction, upload: bool, e: RelayEvent)
    requires
        d.phase is Done,
    ensures
        next_phase(d, upload, e) == (Phase::Done, d.bytes as int, RelayAction::Stop),
{
}

/// Bytes are counted once they have been passed on, and only then.
pub proof fn law_bytes_when_written(d: Direction, upload: bool, e: RelayEvent)
    ensures
        next_phase(d, upload, e).1 == d.bytes + (if d.phase is Writing && e is Written {
            d.phase->Writing_0 as int
        } else {
            0
        }),
{
}

/// How a relay over plain sockets failed.
#[derive(Clone, Copy, PartialEq, Eq, Structural, Debug)]
pub enum FailKind {
    TimedOut,
    ConnectionReset,
    ConnectionAborted,
    UnexpectedEof,
    BrokenPipe,
    WriteZero,
    Other,
}

/// The text holds the word.
pub open spec fn mentions(text: Seq<u8>, word: Seq<u8>) -> bool {
    exists|i: int| found_at(text, word, i)
}

/// The reason that is logged for a failed relay.
pub open spec fn failure_text(kind: FailKind, message: Seq<u8>) -> Seq<char> {
    match kind {
        FailKind::TimedOut => if mentions(message, vstd::utf8::encode_utf8("idle"@)) {
            "idle_timeout"@
        } else {
            "timeout"@
        },
        FailKind::ConnectionReset => "conn_reset"@,
        FailKind::ConnectionAborted => "conn_aborted"@,
        FailKind::UnexpectedEof => "unexpected_eof"@,
        FailKind::BrokenPipe => "broken_pipe"@,
        FailKind::WriteZero => "write_zero"@,
        FailKind::Other => "other"@,
    }
}

/// The reason that is logged for a failed relay, from the kind of failure and its message.
pub fn failure_reason(kind: FailKind, message: &str) -> (r: &'static str)
    ensures
        r@ == failure_text(kind, vstd::utf8::encode_utf8(message@)),
{
    match kind {
        FailKind::TimedOut => {
            match find_bytes(message.as_bytes(), "idle".as_bytes()) {
                Some(i) => {
                    assert(found_at(
                        vstd::utf8::encode_utf8(message@),
                        vstd::utf8::encode_utf8("idle"@),
                        i as int,
                    ));
                    "idle_timeout"
                },
                None => "timeout",
            }
        },
        FailKind::ConnectionReset => "conn_reset",
        FailKind::ConnectionAborted => "conn_aborted",
        FailKind::UnexpectedEof => "unexpected_eof",
        FailKind::BrokenPipe => "broken_pipe",
        FailKind::WriteZero => "write_zero",
        FailKind::Other => "other",
    }
}

proof fn lemma_nearest(a: int, d: int)
    requires
        d > 0,
        a >= 0,
    ensures
        ({
            let q = round_even(a, d);
            &&& q >= 0
            &&& -d <= 2 * (q * d - a) <= d
            &&& 2 * (q * d - a) == d || 2 * (a - q * d) == d ==> q % 2 == 0
        }),
{
    let q = a / d;
    let r = a % d;
    vstd::arithmetic::div_mod::lemma_fundamental_div_mod(a, d);
    vstd::arithmetic::div_mod::lemma_div_pos_is_pos(a, d);
    assert(a == q * d + r) by {
        vstd::arithmetic::mul::lemma_mul_is_commutative(q, d);
    }
    assert((q + 1) * d == q * d + d) by (nonlinear_arith);
    vstd::arithmetic::div_mod::lemma_mod_bound(a, d);
}

/// Numbers of bytes are written for people: below 1024 as they are; below 1024 times 1024 in tenths of
/// 1024; and from there in tenths of 1024 times 1024. The tenths are the nearest ones, and where two
/// are as near the even ones.
pub proof fn law_bytes_for_people(n: int) -> (t: nat)
    requires
        0 <= n < 0x20_0000_0000_0000,
    ensures
        n < 1024 ==> human_text(n) == decimal(n as nat) + seq!['B'],
        1024 <= n < 1048576 ==> human_text(n) == decimal(t / 10) + seq!['.', digit_char((t % 10) as int)] + seq!['K'] && -1024
            <= 2 * (1024 * t - 10 * n) <= 1024 && (2 * (1024 * t - 10 * n) == 1024 || 2 * (1024 * t - 10 * n) == -1024
            ==> t % 2 == 0),
        n >= 1048576 ==> human_text(n) == decimal(t / 10) + seq!['.', digit_char((t % 10) as int)] + seq!['M'] && -1048576
            <= 2 * (1048576 * t - 10 * n) <= 1048576 && (2 * (1048576 * t - 10 * n) == 1048576 || 2 * (1048576 * t - 10
            * n) == -1048576 ==> t % 2 == 0),
{
    if n < 1024 {
        0
    } else if n < 1048576 {
        lemma_nearest(10 * n, 1024);
        round_even(10 * n, 1024) as nat
    } else {
        assert(quantum(n) == 1);
        assert(n / 1 == n && n % 1 == 0);
        assert(round_even(n, 1) == n);
        lemma_nearest(10 * n, 1048576);
        round_even(10 * n, 1048576) as nat
    }
}

/// A target whose address of version 4 stands for a name is asked for by that name, at the same port;
/// the rules are applied to the name.
pub proof fn law_name_restored(h: Seq<char>, o: Seq<u8>, port: u16, name: Seq<char>)
    requires
        h.len() < 2 || h[0] != '[' || h.last() != ']',
        ip_text(h) == Some(IpView::V4(o)),
    ensures
        ({
            let t = h + seq![':'] + decimal(port as nat);
            &&& stand_in(t) == Some(o)
            &&& target_wanted(t, Some(name)) == name + seq![':'] + decimal(port as nat)
            &&& target_host(t, Some(name)) == name
            &&& target_port(t) == port
            &&& target_wanted(t, None) == t
            &&& target_host(t, None) == h
        }),
{
    law_target_split(h, port);
}

/// A target that is no address of version 4 stands for itself, and no other name takes its place.
pub proof fn law_other_targets_kept(h: Seq<char>, port: u16, restored: Option<Seq<char>>)
    requires
        h.len() < 2 || h[0] != '[' || h.last() != ']',
        !(ip_text(h) matches Some(IpView::V4(_))),
    ensures
        ({
            let t = h + seq![':'] + decimal(port as nat);
            &&& stand_in(t) is None
            &&& target_wanted(t, restored) == t
            &&& target_host(t, restored) == h
            &&& target_port(t) == port
        }),
{
    law_target_split(h, port);
}

/// A target without a port has neither host nor port.
pub proof fn law_no_port(t: Seq<char>, restored: Option<Seq<char>>)
    requires
        !t.contains(':'),
    ensures
        target_host(t, restored).len() == 0,
        target_port(t) == 0,
        target_wanted(t, restored) == t,
{
    law_no_target(t, t);
}

/// A server is left by a tunnel of its own, a direct outbound directly, and every other outbound not at
/// all.
pub proof fn law_exits(n: OutboundNode, i: usize)
    ensures
        exit_of(n, i as int) == Exit::Tunnel(i) <==> n is Mirage,
        exit_of(n, i as int) is Tunnel <==> n is Mirage,
        exit_of(n, i as int) is Direct <==> n is Direct,
        exit_of(n, i as int) is Refused <==> n is Wireguard || n is Block || n is Shadowsocks || n is Urltest || n is Fallback
            || n is Selector || n is LoadBalance,
{
}

/// The target always goes first through a tunnel; what the client has sent already follows it where
/// there is anything, and nothing else is sent.
pub proof fn law_opening(target: Seq<char>, payload: Seq<u8>)
    ensures
        opening_messages(target, payload)[0] == target_header(target),
        opening_messages(target, payload).len() == 1 <==> payload.len() == 0,
        payload.len() > 0 ==> opening_messages(target, payload).len() == 2 && opening_messages(target, payload)[1] == payload,
{
}

/// One direction of a relay from a phase on, and what it does with each event.
pub open spec fn relayed(d: (Phase, int), upload: bool, es: Seq<RelayEvent>) -> (Phase, int, Seq<RelayAction>)
    decreases es.len(),
{
    if es.len() == 0 {
        (d.0, d.1, seq![])
    } else {
        let x = next_phase(Direction { phase: d.0, bytes: d.1 as u64 }, upload, es[0]);
        let y = relayed((x.0, x.1), upload, es.drop_first());
        (y.0, y.1, seq![x.2] + y.2)
    }
}

/// The events of a direction in which pieces of these lengths are read and passed on.
pub open spec fn pieces_passed(ns: Seq<u64>) -> Seq<RelayEvent>
    decreases ns.len(),
{
    if ns.len() == 0 {
        seq![]
    } else {
        seq![RelayEvent::Read(ns[0]), RelayEvent::Written] + pieces_passed(ns.drop_first())
    }
}

/// What is done in it.
pub open spec fn pieces_done(n: nat) -> Seq<RelayAction>
    decreases n,
{
    if n == 0 {
        seq![]
    } else {
        seq![RelayAction::Write, RelayAction::Read] + pieces_done((n - 1) as nat)
    }
}

/// The sum of lengths.
pub open spec fn total(ns: Seq<u64>) -> int
    decreases ns.len(),
{
    if ns.len() == 0 {
        0
    } else {
        ns[0] + total(ns.drop_first())
    }
}

proof fn lemma_total(ns: Seq<u64>)
    ensures
        total(ns) >= 0,
    decreases ns.len(),
{
    if ns.len() > 0 {
        lemma_total(ns.drop_first());
    }
}

proof fn lemma_relayed(bytes: int, upload: bool, ns: Seq<u64>, last: RelayEvent)
    requires
        0 <= bytes,
        bytes + total(ns) <= u64::MAX,
        forall|i: int| 0 <= i < ns.len() ==> #[trigger] ns[i] > 0,
    ensures
        ({
            let b = bytes + total(ns);
            let x = next_phase(Direction { phase: Phase::Reading, bytes: b as u64 }, upload, last);
            relayed((Phase::Reading, bytes), upload, pieces_passed(ns) + seq![last]) == (
                x.0,
                x.1,
                pieces_done(ns.len()) + seq![x.2],
            )
        }),
    decreases ns.len(),
{
    let es = pieces_passed(ns) + seq![last];
    let b = bytes + total(ns);
    let x = next_phase(Direction { phase: Phase::Reading, bytes: b as u64 }, upload, last);
    if ns.len() == 0 {
        assert(es =~= seq![last]);
        assert(es.drop_first() =~= seq![]);
        reveal_with_fuel(relayed, 2);
        assert(seq![x.2] + Seq::<RelayAction>::empty() =~= pieces_done(0) + seq![x.2]);
    } else {
        let rest = ns.drop_first();
        lemma_total(rest);
        assert forall|i: int| 0 <= i < rest.len() implies #[trigger] rest[i] > 0 by {
            assert(rest[i] == ns[i + 1]);
        }
        lemma_relayed(bytes + ns[0], upload, rest, last);
        let t = pieces_passed(rest) + seq![last];
        assert(ns[0] > 0);
        assert(es.drop_first() =~= seq![RelayEvent::Written] + t);
        assert((seq![RelayEvent::Written] + t).drop_first() =~= t);
        assert(es[0] == RelayEvent::Read(ns[0]));
        let y = relayed((Phase::Reading, bytes + ns[0]), upload, t);
        assert(relayed((Phase::Writing(ns[0]), bytes), upload, seq![RelayEvent::Written] + t) == (
            y.0,
            y.1,
            seq![RelayAction::Read] + y.2,
        ));
        assert(seq![RelayAction::Write] + (seq![RelayAction::Read] + (pieces_done(rest.len()) + seq![x.2])) =~= pieces_done(
            ns.len(),
        ) + seq![x.2]);
    }
}

/// A direction passes on whatever is read, piece by piece, and counts every byte of it. It goes on until
/// the end: from the client, the end of its bytes and a failure are passed on as a notice; a failure
/// of a tunnel, and nothing read for too long, just end it.
pub proof fn law_relay_passes_all(upload: bool, ns: Seq<u64>)
    requires
        total(ns) <= u64::MAX,
        forall|i: int| 0 <= i < ns.len() ==> #[trigger] ns[i] > 0,
    ensures
        upload ==> relayed((Phase::Reading, 0), upload, pieces_passed(ns) + seq![RelayEvent::Read(0)]) == (
            Phase::Done,
            total(ns),
            pieces_done(ns.len()) + seq![RelayAction::CloseNotify],
        ),
        relayed((Phase::Reading, 0), upload, pieces_passed(ns) + seq![RelayEvent::ReadFailed]) == (
            Phase::Done,
            total(ns),
            pieces_done(ns.len()) + seq![
                if upload {
                    RelayAction::CloseNotify
                } else {
                    RelayAction::Stop
                },
            ],
        ),
        relayed((Phase::Reading, 0), upload, pieces_passed(ns) + seq![RelayEvent::Idle]) == (
            Phase::Done,
            total(ns),
            pieces_done(ns.len()) + seq![RelayAction::Stop],
        ),
{
    lemma_total(ns);
    lemma_relayed(0, upload, ns, RelayEvent::Read(0));
    lemma_relayed(0, upload, ns, RelayEvent::ReadFailed);
    lemma_relayed(0, upload, ns, RelayEvent::Idle);
}

/// A direction that cannot pass on what it read stops, and does not count it.
pub proof fn law_failed_write_stops(n: u64, bytes: u64, upload: bool)
    ensures
        next_phase(Direction { phase: Phase::Writing(n), bytes }, upload, RelayEvent::WriteFailed) == (
            Phase::Done,
            bytes as int,
            RelayAction::Stop,
        ),
{
}

/// A relay that timed out is logged as idle exactly where its message says so somewhere; every other
/// kind of failure has its own name, whatever its message says.
pub proof fn law_failures_named(kind: FailKind, a: Seq<u8>, b: Seq<u8>, message: Seq<u8>)
    ensures
        failure_text(FailKind::TimedOut, a + vstd::utf8::encode_utf8("idle"@) + b) == "idle_timeout"@,
        (forall|i: int| !found_at(message, vstd::utf8::encode_utf8("idle"@), i)) ==> failure_text(FailKind::TimedOut, message)
            == "timeout"@,
        failure_text(FailKind::ConnectionReset, message) == "conn_reset"@,
        failure_text(FailKind::ConnectionAborted, message) == "conn_aborted"@,
        failure_text(FailKind::UnexpectedEof, message) == "unexpected_eof"@,
        failure_text(FailKind::BrokenPipe, message) == "broken_pipe"@,
        failure_text(FailKind::WriteZero, message) == "write_zero"@,
        failure_text(FailKind::Other, message) == "other"@,
{
    let w = vstd::utf8::encode_utf8("idle"@);
    let t = a + w + b;
    assert(t.subrange(a.len() as int, a.len() as int + w.len()) =~= w);
    assert(found_at(t, w, a.len() as int));
}

} // verus!
