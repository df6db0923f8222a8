//! Noticing that the network has changed: which messages of the kernel matter, and the count of
//! changes.

use vstd::prelude::*;

use crate::wire::be16;

verus! {

/// How long further messages are waited for after a change, in milliseconds.
pub const DEBOUNCE_MS: u64 = 500;

/// How often the network has changed, and whether it is watched.
pub struct NetMonitor {
    pub epoch: u64,
    pub started: bool,
}

/// Counts a change.
pub fn bump(m: &mut NetMonitor)
    ensures
        final(m).epoch == (old(m).epoch + 1) % 0x1_0000_0000_0000_0000,
        final(m).started == old(m).started,
{
    m.epoch = m.epoch.wrapping_add(1);
}

/// Whether watching has to be started now: only the first request starts it.
pub fn spawn_monitor(m: &mut NetMonitor) -> (r: bool)
    ensures
        r == !old(m).started,
        final(m).started,
        final(m).epoch == old(m).epoch,
{
    let first: bool = !m.started;
    m.started = true;
    first
}

/// A number of four bytes in the byte order of the machine.
pub open spec fn native32(b: Seq<u8>, i: int, little: bool) -> int {
    if little {
        b[i] + 256 * b[i + 1] + 65536 * b[i + 2] + 16777216 * b[i + 3]
    } else {
        b[i + 3] + 256 * b[i + 2] + 65536 * b[i + 1] + 16777216 * b[i]
    }
}

/// A number of two bytes in the byte order of the machine.
pub open spec fn native16(b: Seq<u8>, i: int, little: bool) -> int {
    if little {
        b[i] + 256 * b[i + 1]
    } else {
        b[i + 1] + 256 * b[i]
    }
}

/// A message matters: a link or an address has changed, or a route that applies to everything.
pub open spec fn message_matters(b: Seq<u8>, pos: int, little: bool) -> bool {
    let t = native16(b, pos + 4, little);
    t == 16 || t == 17 || t == 20 || t == 21 || ((t == 24 || t == 25) && pos + 18 <= b.len() && b[pos + 17] == 0)
}

/// Some message from `pos` on matters. A message that is cut off or too short ends the list.
pub open spec fn change_in(b: Seq<u8>, pos: int, little: bool) -> bool
    decreases b.len() + 4 - pos,
{
    if pos < 0 || pos + 16 > b.len() {
        false
    } else {
        let n = native32(b, pos, little);
        if n < 16 || pos + n > b.len() {
            false
        } else {
            message_matters(b, pos, little) || change_in(b, (pos + n + 3) / 4 * 4, little)
        }
    }
}

/// Whether the network has changed, going by messages in a known byte order.
pub fn changed_in(buf: &[u8], little: bool) -> (r: bool)
    requires
        buf@.len() + 3 <= usize::MAX,
    ensures
        r == change_in(buf@, 0, little),
{
    let mut pos: usize = 0;
    while pos <= buf.len() && buf.len() - pos >= 16
        invariant
            buf@.len() + 3 <= usize::MAX,
            pos <= buf@.len() + 3,
            change_in(buf@, 0, little) == change_in(buf@, pos as int, little),
        decreases buf@.len() + 3 - pos,
    {
        let n: u64 = if little {
            buf[pos] as u64 + 256 * buf[pos + 1] as u64 + 65536 * buf[pos + 2] as u64 + 16777216 * buf[pos + 3] as u64
        } else {
            buf[pos + 3] as u64 + 256 * buf[pos + 2] as u64 + 65536 * buf[pos + 1] as u64 + 16777216 * buf[pos] as u64
        };
        let t: u32 = if little {
            buf[pos + 4] as u32 + 256 * buf[pos + 5] as u32
        } else {
            buf[pos + 5] as u32 + 256 * buf[pos + 4] as u32
        };
        assert(t == native16(buf@, pos + 4, little));
        assert(n == native32(buf@, pos as int, little));
        if n < 16 || n > (buf.len() - pos) as u64 {
            return false;
        }
        if t == 16 || t == 17 || t == 20 || t == 21 {
            return true;
        }
        if (t == 24 || t == 25) && buf.len() - pos >= 18 && buf[pos + 17] == 0 {
            return true;
        }
        pos = (pos + n as usize + 3) / 4 * 4;
    }
    false
}

/// Calls `u16::to_ne_bytes`: the bytes of a number in the byte order of the machine, which is one or
/// the other.
#[verifier::external_body]
fn native_bytes(x: u16) -> (r: [u8; 2])
    ensures
        r@ == be16(x) || r@ == be16(x).reverse(),
{
    x.to_ne_bytes()
}

/// Whether the network has changed, going by messages of the kernel. They are in the byte order of
/// the machine; which one that is, is not stated.
pub fn should_bump(buf: &[u8]) -> (r: bool)
    requires
        buf@.len() + 3 <= usize::MAX,
    ensures
        r == change_in(buf@, 0, true) || r == change_in(buf@, 0, false),
{
    let b: [u8; 2] = native_bytes(1);
    changed_in(buf, b[0] == 1)
}

/// A change of a route to somewhere in particular is noise: only what follows it counts.
pub proof fn law_specific_route_skipped(b: Seq<u8>, pos: int, little: bool)
    requires
        0 <= pos,
        pos + 18 <= b.len(),
        native16(b, pos + 4, little) == 24 || native16(b, pos + 4, little) == 25,
        b[pos + 17] != 0,
        16 <= native32(b, pos, little) <= b.len() - pos,
    ensures
        change_in(b, pos, little) == change_in(b, (pos + native32(b, pos, little) + 3) / 4 * 4, little),
{
}

/// From `pos` to the end stand whole messages, each padded to four bytes: none is shorter than its
/// header, and a change of a route also holds the byte that says how much of an address it fixes.
pub open spec fn whole_messages(b: Seq<u8>, pos: int, little: bool) -> bool
    decreases b.len() - pos,
{
    pos == b.len() || {
        let n = native32(b, pos, little);
        let t = native16(b, pos + 4, little);
        let next = (pos + n + 3) / 4 * 4;
        &&& 0 <= pos
        &&& pos + 16 <= b.len()
        &&& 16 <= n
        &&& (t == 24 || t == 25) ==> 18 <= n
        &&& next <= b.len()
        &&& whole_messages(b, next, little)
    }
}

proof fn lemma_shifted(a: Seq<u8>, b: Seq<u8>, pos: int, little: bool)
    requires
        0 <= pos,
        a.len() % 4 == 0,
    ensures
        change_in(a + b, a.len() + pos, little) == change_in(b, pos, little),
    decreases b.len() + 4 - pos,
{
    let c = a + b;
    let at = a.len() + pos;
    if pos + 16 <= b.len() {
        assert(forall|k: int| 0 <= k < b.len() ==> c[a.len() + k] == b[k]);
        assert(c[at] == b[pos] && c[at + 1] == b[pos + 1] && c[at + 2] == b[pos + 2] && c[at + 3] == b[pos + 3]);
        assert(c[at + 4] == b[pos + 4] && c[at + 5] == b[pos + 5]);
        let n = native32(b, pos, little);
        assert(native32(c, at, little) == n);
        if 16 <= n && pos + n <= b.len() {
            assert(message_matters(c, at, little) == message_matters(b, pos, little));
            let next = (pos + n + 3) / 4 * 4;
            assert((at + n + 3) / 4 * 4 == a.len() + next);
            lemma_shifted(a, b, next, little);
        }
    }
}

proof fn lemma_joined(a: Seq<u8>, b: Seq<u8>, pos: int, little: bool)
    requires
        0 <= pos <= a.len(),
        a.len() % 4 == 0,
        whole_messages(a, pos, little),
    ensures
        change_in(a + b, pos, little) == (change_in(a, pos, little) || change_in(b, 0, little)),
    decreases a.len() - pos,
{
    let c = a + b;
    if pos == a.len() {
        lemma_shifted(a, b, 0, little);
    } else {
        assert(c[pos] == a[pos] && c[pos + 1] == a[pos + 1] && c[pos + 2] == a[pos + 2] && c[pos + 3] == a[pos + 3]);
        assert(c[pos + 4] == a[pos + 4] && c[pos + 5] == a[pos + 5]);
        let n = native32(a, pos, little);
        assert(native32(c, pos, little) == n);
        assert(message_matters(c, pos, little) == message_matters(a, pos, little));
        lemma_joined(a, b, (pos + n + 3) / 4 * 4, little);
    }
}

proof fn lemma_whole_len(a: Seq<u8>, pos: int, little: bool)
    requires
        0 <= pos <= a.len(),
        pos % 4 == 0,
        whole_messages(a, pos, little),
    ensures
        a.len() % 4 == 0,
    decreases a.len() - pos,
{
    if pos < a.len() {
        lemma_whole_len(a, (pos + native32(a, pos, little) + 3) / 4 * 4, little);
    }
}

/// Messages that come together count as each of them does: after a list of whole messages whatever
/// follows is judged on its own, and one message that matters is enough, wherever it stands.
pub proof fn law_messages_joined(a: Seq<u8>, b: Seq<u8>, little: bool)
    requires
        whole_messages(a, 0, little),
    ensures
        change_in(a + b, 0, little) == (change_in(a, 0, little) || change_in(b, 0, little)),
{
    lemma_whole_len(a, 0, little);
    lemma_joined(a, b, 0, little);
}

/// Numbers are read in either byte order as they were written in it.
pub proof fn law_byte_orders(x: u16, b: Seq<u8>)
    requires
        b.len() >= 4,
    ensures
        native16(be16(x), 0, false) == x,
        native16(be16(x).reverse(), 0, true) == x,
        native32(b, 0, true) == native32(b.take(4).reverse(), 0, false),
        native32(b, 0, false) == 16777216 * b[0] + 65536 * b[1] + 256 * b[2] + b[3],
{
}

/// A whole message at the front counts as a change where it says that a link or an address came, changed or
/// went, or the same of the default route; whatever follows it.
pub proof fn law_changes_noticed(b: Seq<u8>, little: bool)
    requires
        b.len() >= 18,
        16 <= native32(b, 0, little) <= b.len(),
        ({
            let t = native16(b, 4, little);
            t == 16 || t == 17 || t == 20 || t == 21 || ((t == 24 || t == 25) && b[17] == 0)
        }),
    ensures
        change_in(b, 0, little),
{
}

/// A message of another type is passed over: what follows it counts.
pub proof fn law_other_messages_skipped(b: Seq<u8>, little: bool)
    requires
        b.len() >= 16,
        16 <= native32(b, 0, little) <= b.len(),
        ({
            let t = native16(b, 4, little);
            t != 16 && t != 17 && t != 20 && t != 21 && t != 24 && t != 25
        }),
    ensures
        change_in(b, 0, little) == change_in(b, (native32(b, 0, little) + 3) / 4 * 4, little),
{
}

/// Nothing, a message that is cut off, and one shorter than its header are no change.
pub proof fn law_broken_messages_ignored(b: Seq<u8>, little: bool)
    requires
        b.len() < 16 || native32(b, 0, little) < 16 || native32(b, 0, little) > b.len(),
    ensures
        !change_in(b, 0, little),
{
}

} // verus!
