//! Traffic counters, the log lines that are kept in memory, and the rotation of the log file.

use std::collections::VecDeque;
use vstd::prelude::*;

use crate::text::{chars_of, decimal, lossy_text, push_decimal, push_text, string_of, trim, trimmed, utf8_lossy};

verus! {

/// How many log lines are kept.
pub const KEPT_LINES: usize = 500;

/// How many log lines may wait to be kept.
pub const WAITING_LINES: usize = 1000;

/// The size at which a log file is rotated.
pub const LOG_ROTATE_BYTES: u64 = 10_485_760;

/// How many old log files are kept.
pub const LOG_KEEP_ARCHIVES: usize = 10;

/// Bytes sent and received, and log lines that found no room.
pub struct Counters {
    pub up: u64,
    pub down: u64,
    pub dropped_logs: u64,
}

/// Counts bytes that were sent.
pub fn add_up(c: &mut Counters, bytes: u64)
    ensures
        final(c).up == (old(c).up + bytes) % 0x1_0000_0000_0000_0000,
        final(c).down == old(c).down,
        final(c).dropped_logs == old(c).dropped_logs,
{
    c.up = c.up.wrapping_add(bytes);
}

/// Counts bytes that were received.
pub fn add_down(c: &mut Counters, bytes: u64)
    ensures
        final(c).down == (old(c).down + bytes) % 0x1_0000_0000_0000_0000,
        final(c).up == old(c).up,
        final(c).dropped_logs == old(c).dropped_logs,
{
    c.down = c.down.wrapping_add(bytes);
}

/// A reader whose bytes are counted, as sent or as received.
pub struct MonitoredReader<R> {
    pub inner: R,
    pub is_up: bool,
}

impl<R> MonitoredReader<R> {
    /// Counts the bytes of a reader.
    pub fn new(inner: R, is_up: bool) -> (r: MonitoredReader<R>)
        ensures
            r.inner == inner,
            r.is_up == is_up,
    {
        MonitoredReader { inner, is_up }
    }

    /// Counts bytes that were read.
    pub fn count(&self, c: &mut Counters, bytes: u64)
        ensures
            final(c).up == if self.is_up {
                (old(c).up + bytes) % 0x1_0000_0000_0000_0000
            } else {
                old(c).up as int
            },
            final(c).down == if self.is_up {
                old(c).down as int
            } else {
                (old(c).down + bytes) % 0x1_0000_0000_0000_0000
            },
            final(c).dropped_logs == old(c).dropped_logs,
    {
        if self.is_up {
            add_up(c, bytes);
        } else {
            add_down(c, bytes);
        }
    }
}

/// The log lines that are kept, and those that wait to be kept.
pub struct MemoryWriter {
    pub waiting: VecDeque<String>,
    pub buffer: VecDeque<String>,
}

/// Texts as sequences of characters.
pub open spec fn line_views(s: Seq<String>) -> Seq<Seq<char>> {
    Seq::new(s.len(), |i: int| s[i]@)
}

/// The newest lines, as many as are kept.
pub open spec fn newest_lines<T>(s: Seq<T>) -> Seq<T> {
    if s.len() <= KEPT_LINES {
        s
    } else {
        s.skip(s.len() - KEPT_LINES)
    }
}

/// Whether a log line is kept: it must hold more than white space.
pub fn worth_keeping(line: &str) -> (r: bool)
    ensures
        r == (trimmed(line@).len() > 0),
{
    let c: Vec<char> = chars_of(line);
    trim(c.as_slice()).len() > 0
}

impl MemoryWriter {
    /// No more lines than are kept, and no more than may wait.
    pub open spec fn wf(&self) -> bool {
        self.buffer@.len() <= KEPT_LINES && self.waiting@.len() <= WAITING_LINES
    }

    /// No lines.
    pub fn new() -> (r: MemoryWriter)
        ensures
            r.wf(),
            r.waiting@.len() == 0,
            r.buffer@.len() == 0,
    {
        MemoryWriter { waiting: VecDeque::new(), buffer: VecDeque::new() }
    }

    /// Takes a log line, unless it is blank; where too many wait already, it is counted as lost.
    pub fn write(&mut self, c: &mut Counters, bytes: &[u8])
        requires
            old(self).wf(),
        ensures
            final(self).wf(),
            final(self).buffer == old(self).buffer,
            final(c).up == old(c).up,
            final(c).down == old(c).down,
            ({
                let line = lossy_text(bytes@);
                if trimmed(line).len() == 0 {
                    final(self).waiting@ == old(self).waiting@ && final(c).dropped_logs == old(c).dropped_logs
                } else if old(self).waiting@.len() < WAITING_LINES {
                    line_views(final(self).waiting@) == line_views(old(self).waiting@).push(line)
                        && final(c).dropped_logs == old(c).dropped_logs
                } else {
                    final(self).waiting@ == old(self).waiting@ && final(c).dropped_logs == (old(c).dropped_logs + 1)
                        % 0x1_0000_0000_0000_0000
                }
            }),
    {
        let line: String = utf8_lossy(bytes);
        if !worth_keeping(line.as_str()) {
            return;
        }
        if self.waiting.len() >= WAITING_LINES {
            c.dropped_logs = c.dropped_logs.wrapping_add(1);
            return;
        }
        let ghost before = self.waiting@;
        let ghost l = line@;
        self.waiting.push_back(line);
        assert(line_views(self.waiting@) =~= line_views(before).push(l));
    }

    /// Keeps the line that has waited longest; the oldest line that is kept makes room for it.
    pub fn keep_next(&mut self) -> (r: bool)
        requires
            old(self).wf(),
        ensures
            final(self).wf(),
            r == (old(self).waiting@.len() > 0),
            if r {
                final(self).waiting@ == old(self).waiting@.skip(1) && final(self).buffer@ == newest_lines(
                    old(self).buffer@.push(old(self).waiting@[0]),
                )
            } else {
                final(self).waiting@ == old(self).waiting@ && final(self).buffer@ == old(self).buffer@
            },
    {
        let ghost w = self.waiting@;
        let ghost b = self.buffer@;
        match self.waiting.pop_front() {
            None => false,
            Some(line) => {
                assert(self.waiting@ =~= w.skip(1));
                if self.buffer.len() >= KEPT_LINES {
                    let _ = self.buffer.pop_front();
                }
                self.buffer.push_back(line);
                assert(self.buffer@ =~= newest_lines(b.push(line)));
                true
            },
        }
    }

    /// The lines that are kept, the oldest first.
    pub fn get_logs(&self) -> (r: Vec<String>)
        ensures
            r@ == self.buffer@,
    {
        let mut out: Vec<String> = Vec::new();
        let n: usize = self.buffer.len();
        let mut i: usize = 0;
        while i < n
            invariant
                n == self.buffer@.len(),
                i <= n,
                out@ == self.buffer@.take(i as int),
            decreases n - i,
        {
            out.push(self.buffer[i].clone());
            assert(self.buffer@.take(i + 1) =~= self.buffer@.take(i as int).push(self.buffer@[i as int]));
            i = i + 1;
        }
        assert(self.buffer@.take(i as int) =~= self.buffer@);
        out
    }
}

/// The name of an old log file.
pub open spec fn archive_text(path: Seq<char>, i: nat) -> Seq<char> {
    path + seq!['.'] + decimal(i) + ".gz"@
}

/// The name of an old log file: that of the log file, its age and an ending.
pub fn archive_name(path: &str, i: usize) -> (r: String)
    ensures
        r@ == archive_text(path@, i as nat),
{
    let mut out: Vec<char> = Vec::new();
    push_text(&mut out, path);
    out.push('.');
    push_decimal(&mut out, i as u64);
    push_text(&mut out, ".gz");
    assert(out@ =~= archive_text(path@, i as nat));
    string_of(out.as_slice())
}

/// The old log files that have to be renamed, in that order: from the oldest to the newest, each that
/// exists moves up by one. The oldest of all is removed before.
pub open spec fn moves(exists: Seq<bool>, n: int) -> Seq<usize>
    decreases n,
{
    if n <= 0 {
        seq![]
    } else if exists[n] {
        seq![n as usize] + moves(exists, n - 1)
    } else {
        moves(exists, n - 1)
    }
}

/// The old log files that have to be renamed; `exists` says of each age whether there is one.
pub fn shift_order(exists: &Vec<bool>) -> (r: Vec<usize>)
    requires
        exists@.len() == LOG_KEEP_ARCHIVES + 1,
    ensures
        r@ == moves(exists@, LOG_KEEP_ARCHIVES - 1),
{
    let mut out: Vec<usize> = Vec::new();
    let mut i: usize = LOG_KEEP_ARCHIVES - 1;
    assert(out@ + moves(exists@, LOG_KEEP_ARCHIVES - 1) =~= moves(exists@, LOG_KEEP_ARCHIVES - 1));
    while i > 0
        invariant
            exists@.len() == LOG_KEEP_ARCHIVES + 1,
            i < LOG_KEEP_ARCHIVES,
            out@ + moves(exists@, i as int) == moves(exists@, LOG_KEEP_ARCHIVES - 1),
        decreases i,
    {
        let ghost before = out@;
        if exists[i] {
            out.push(i);
            assert(before + (seq![i] + moves(exists@, i - 1)) =~= out@ + moves(exists@, i - 1));
        }
        i = i - 1;
    }
    assert(out@ + moves(exists@, 0) =~= out@);
    out
}

/// The old log files after those of age `n` and younger have moved up by one.
pub open spec fn shifted<T>(m: Map<int, T>, n: int) -> Map<int, T>
    decreases n,
{
    if n <= 0 {
        m
    } else if m.dom().contains(n) {
        shifted(m.remove(n).insert(n + 1, m[n]), n - 1)
    } else {
        shifted(m, n - 1)
    }
}

/// Rotating loses nothing but the oldest file: each old log file is then one older, and the place of
/// the youngest is free.
pub proof fn law_shift_keeps<T>(m: Map<int, T>, n: int, k: int)
    requires
        0 <= n,
        !m.dom().contains(n + 1),
    ensures
        1 <= k <= n ==> (shifted(m, n).dom().contains(k + 1) <==> m.dom().contains(k)) && (m.dom().contains(k)
            ==> shifted(m, n)[k + 1] == m[k]),
        n >= 1 ==> !shifted(m, n).dom().contains(1),
        k > n + 1 || k <= 0 ==> (shifted(m, n).dom().contains(k) <==> m.dom().contains(k)) && (m.dom().contains(k)
            ==> shifted(m, n)[k] == m[k]),
        n == 0 ==> shifted(m, n) == m,
    decreases n,
{
    if n > 0 {
        if m.dom().contains(n) {
            let m2 = m.remove(n).insert(n + 1, m[n]);
            law_shift_keeps(m2, n - 1, k);
            law_shift_keeps(m2, n - 1, n + 1);
        } else {
            law_shift_keeps(m, n - 1, k);
            law_shift_keeps(m, n - 1, n + 1);
        }
    }
}

/// A log file: its size, and the size at which it is rotated.
pub struct RotatingFile {
    pub written: u64,
    pub rotate_at: u64,
}

/// How a rotation went.
#[derive(Clone, Copy, PartialEq, Eq, Structural, Debug)]
pub enum RotateOutcome {
    /// The log file could not be renamed, and is written on.
    RenameFailed,
    /// A new log file has been opened.
    Reopened,
    /// No new log file could be opened, and the old one was put back.
    ReopenFailed,
}

impl RotatingFile {
    /// Counts bytes that were written; the result says whether the file has to be rotated.
    pub fn on_write(&mut self, bytes: u64) -> (r: bool)
        requires
            old(self).written + bytes <= u64::MAX,
        ensures
            final(self).written == old(self).written + bytes,
            final(self).rotate_at == old(self).rotate_at,
            r == (final(self).written >= final(self).rotate_at),
    {
        self.written = self.written + bytes;
        self.written >= self.rotate_at
    }

    /// Takes in how a rotation went. Unless the old file is still in use, counting starts again.
    pub fn on_rotated(&mut self, o: RotateOutcome)
        ensures
            final(self).rotate_at == old(self).rotate_at,
            final(self).written == if o is ReopenFailed {
                old(self).written
            } else {
                0
            },
    {
        match o {
            RotateOutcome::ReopenFailed => {},
            _ => {
                self.written = 0;
            },
        }
    }
}

/// The newest five hundred lines are kept in their order, and all where there are no more.
pub proof fn law_newest_lines_kept<T>(s: Seq<T>, x: T, i: int)
    ensures
        newest_lines(s).len() == if s.len() <= 500 {
            s.len() as int
        } else {
            500
        },
        0 <= i < newest_lines(s).len() ==> newest_lines(s)[newest_lines(s).len() - 1 - i] == s[s.len() - 1 - i],
        newest_lines(s.push(x)).last() == x,
{
}

/// Exactly the old log files that exist are renamed, the oldest of them first.
pub proof fn law_moves_all(exists: Seq<bool>, n: int, k: usize)
    requires
        0 <= n < exists.len() <= usize::MAX,
    ensures
        moves(exists, n).contains(k) <==> 1 <= k <= n && exists[k as int],
        forall|i: int, j: int| 0 <= i < j < moves(exists, n).len() ==> #[trigger] moves(exists, n)[i] > #[trigger] moves(
            exists,
            n,
        )[j],
        forall|i: int| 0 <= i < moves(exists, n).len() ==> #[trigger] moves(exists, n)[i] <= n,
    decreases n,
{
    if n > 0 {
        law_moves_all(exists, n - 1, k);
        let m = moves(exists, n - 1);
        let v = moves(exists, n);
        if exists[n] {
            assert(v.contains(k) <==> k == n as usize || m.contains(k)) by {
                if m.contains(k) {
                    assert(v[m.index_of(k) + 1] == k);
                }
                assert(v[0] == n as usize);
                if v.contains(k) && k != n as usize {
                    assert(m[v.index_of(k) - 1] == k);
                }
            }
            assert forall|i: int, j: int| 0 <= i < j < v.len() implies #[trigger] v[i] > #[trigger] v[j] by {
                assert(v[j] == m[j - 1]);
                if i > 0 {
                    assert(v[i] == m[i - 1]);
                }
            }
            assert forall|i: int| 0 <= i < v.len() implies #[trigger] v[i] <= n by {
                if i > 0 {
                    assert(v[i] == m[i - 1]);
                }
            }
        }
    }
}

/// Log files of different ages have different names.
pub proof fn law_archives_distinct(path: Seq<char>, i: nat, j: nat)
    requires
        archive_text(path, i) == archive_text(path, j),
    ensures
        i == j,
{
    reveal_strlit(".gz");
    let a = archive_text(path, i);
    let b = archive_text(path, j);
    let n = path.len() as int + 1;
    assert(a.subrange(n, a.len() - 3) =~= decimal(i));
    assert(b.subrange(n, b.len() - 3) =~= decimal(j));
    crate::text::lemma_decimal_value(i);
    crate::text::lemma_decimal_value(j);
}

} // verus!
