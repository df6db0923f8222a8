//! Capturing the first message of a browser, as a template for the messages that imitate it.

use vstd::prelude::*;

use crate::sniff::{
    extension_bytes, extensions, find_extensions, find_name, hello_front, hello_message, law_extensions_found,
    law_name_span_found, lemma_hello_shape, name_span, named_extension, whole_hello, HelloParts,
};
use crate::text::{opt_text, utf8_string, utf8_text};
use crate::wire::{be16, copy_range, lemma_be16_at, read_u16, u16_at};

verus! {

/// A captured message, and where the server name stands in it.
pub struct Captured {
    pub bytes: Vec<u8>,
    pub record_len: usize,
    pub sni_host: Option<String>,
    pub sni_host_offset: Option<usize>,
    pub sni_host_len: Option<usize>,
}

/// A captured message as a value: its bytes, and the place and length of the name in it.
#[verifier::ext_equal]
pub struct CapturedView {
    pub bytes: Seq<u8>,
    pub name: Option<(int, int)>,
}

/// Where the name stands in a captured message.
pub open spec fn name_place(c: Captured) -> Option<(int, int)> {
    match (c.sni_host_offset, c.sni_host_len) {
        (Some(o), Some(n)) => Some((o as int, n as int)),
        _ => None,
    }
}

impl Captured {
    /// The name is the text at its place, where that is one, and place and length are there together.
    pub open spec fn wf(&self) -> bool {
        &&& self.record_len == self.bytes@.len()
        &&& self.sni_host_offset is Some <==> self.sni_host_len is Some
        &&& opt_text(self.sni_host) == match name_place(*self) {
            Some(s) => utf8_text(self.bytes@.subrange(s.0, s.0 + s.1)),
            None => None,
        }
    }
}

impl View for Captured {
    type V = CapturedView;

    open spec fn view(&self) -> CapturedView {
        CapturedView { bytes: self.bytes@, name: name_place(*self) }
    }
}

/// Where the server name stands in a client hello that ends at `end`; extensions that claim to be
/// longer end there too.
pub open spec fn sni_place(d: Seq<u8>, end: int) -> Option<(int, int)> {
    match extensions(d, end) {
        None => None,
        Some(x) => name_span(
            d,
            x.0,
            if x.0 + x.1 < end {
                x.0 + x.1
            } else {
                end
            },
        ),
    }
}

/// Finds where the server name stands in a client hello that ends at `end`: the name where it is text,
/// its place and its length.
pub fn parse_sni(data: &[u8], end: usize) -> (r: (Option<String>, Option<usize>, Option<usize>))
    requires
        44 <= data@.len(),
        end <= data@.len(),
    ensures
        match sni_place(data@, end as int) {
            None => r.0 is None && r.1 is None && r.2 is None,
            Some(s) => s.0 + s.1 <= end && r.1 == Some(s.0 as usize) && s.0 == s.0 as usize && r.2 == Some(s.1 as usize)
                && s.1 == s.1 as usize && opt_text(r.0) == utf8_text(data@.subrange(s.0, s.0 + s.1)),
        },
{
    match find_extensions(data, end) {
        None => (None, None, None),
        Some(x) => {
            let stop: usize = if x.1 < end - x.0 {
                x.0 + x.1
            } else {
                end
            };
            match find_name(data, x.0, stop) {
                None => (None, None, None),
                Some(s) => {
                    let name: Vec<u8> = copy_range(data, s.0, s.0 + s.1);
                    (utf8_string(name.as_slice()), Some(s.0), Some(s.1))
                },
            }
        },
    }
}

/// The message that is captured: a whole client hello with a session of thirty-two bytes.
pub open spec fn capture_of(d: Seq<u8>) -> Option<CapturedView> {
    let n = 5 + u16_at(d, 3);
    if d.len() < 44 || d[0] != 0x16 || d[5] != 1 || n > d.len() || d[43] != 32 {
        None
    } else {
        Some(CapturedView { bytes: d.take(n), name: sni_place(d, n) })
    }
}

/// Reads the message that is captured.
pub fn parse_for_capture(data: &[u8]) -> (r: Option<Captured>)
    ensures
        match r {
            Some(c) => capture_of(data@) == Some(c@) && c.wf(),
            None => capture_of(data@) is None,
        },
{
    if data.len() < 44 || data[0] != 0x16 || data[5] != 1 {
        return None;
    }
    let n: usize = 5 + read_u16(data, 3) as usize;
    if n > data.len() {
        return None;
    }
    if data[43] != 32 {
        return None;
    }
    let s: (Option<String>, Option<usize>, Option<usize>) = parse_sni(data, n);
    let bytes: Vec<u8> = copy_range(data, 0, n);
    assert(bytes@ =~= data@.take(n as int));
    proof {
        match sni_place(data@, n as int) {
            Some(x) => {
                lemma_place_positive(data@, n as int);
                assert(bytes@.subrange(x.0, x.0 + x.1) =~= data@.subrange(x.0, x.0 + x.1));
            },
            None => {},
        }
    }
    Some(Captured { bytes, record_len: n, sni_host: s.0, sni_host_offset: s.1, sni_host_len: s.2 })
}

proof fn lemma_place_positive(d: Seq<u8>, end: int)
    requires
        end <= d.len(),
    ensures
        sni_place(d, end) matches Some(s) ==> 0 <= s.0 && 0 <= s.1,
{
    match extensions(d, end) {
        None => {},
        Some(x) => {
            crate::sniff::law_name_within(
                d,
                x.0,
                if x.0 + x.1 < end {
                    x.0 + x.1
                } else {
                    end
                },
            );
        },
    }
}

/// Whether a message is waited for, where it goes, and the last one that was captured.
pub struct CaptureState {
    pub armed: bool,
    pub out: Option<String>,
    pub last: Option<Captured>,
}

/// What is done with a message.
pub enum CaptureStep {
    /// Nothing.
    Ignored,
    /// Whoever waits for a message is told.
    Notify,
    /// The captured message is written to this file first.
    Write(String),
}

/// Waits for a message, which goes to a file where one is named.
pub fn arm(s: &mut CaptureState, out: Option<String>)
    ensures
        final(s).armed,
        final(s).out == out,
        final(s).last == old(s).last,
{
    s.armed = true;
    s.out = out;
}

/// Whether a message is waited for.
pub fn is_armed(s: &CaptureState) -> (r: bool)
    ensures
        r == s.armed,
{
    s.armed
}

fn copy_text(t: &Option<String>) -> (r: Option<String>)
    ensures
        r == *t,
{
    match t {
        Some(x) => Some(x.clone()),
        None => None,
    }
}

/// Where the random bytes stand in a captured message.
pub const RANDOM_OFFSET: usize = 11;

/// Where the session identifier stands in a captured message.
pub const SESSION_ID_OFFSET: usize = 44;

/// What stands beside a captured message for its reader.
pub const SIDECAR_NOTE: &'static str = "Mirage fake-TLS 指纹模板 (真浏览器 ClientHello). 回放时替换 session_id/random/SNI。";

/// What is written down beside a captured message: a note, its length, and where the parts stand that
/// are replaced when it is used as a template.
pub struct Sidecar {
    pub note: String,
    pub record_len: usize,
    pub session_id_offset: usize,
    pub random_offset: usize,
    pub sni_host: Option<String>,
    pub sni_host_offset: Option<usize>,
    pub sni_host_len: Option<usize>,
}

/// What is written down beside a captured message.
pub fn sidecar(cap: &Captured) -> (r: Sidecar)
    ensures
        r.note@ == SIDECAR_NOTE@,
        r.record_len == cap.record_len,
        r.session_id_offset == SESSION_ID_OFFSET,
        r.random_offset == RANDOM_OFFSET,
        r.sni_host == cap.sni_host,
        r.sni_host_offset == cap.sni_host_offset,
        r.sni_host_len == cap.sni_host_len,
{
    Sidecar {
        note: SIDECAR_NOTE.to_owned(),
        record_len: cap.record_len,
        session_id_offset: SESSION_ID_OFFSET,
        random_offset: RANDOM_OFFSET,
        sni_host: copy_text(&cap.sni_host),
        sni_host_offset: cap.sni_host_offset,
        sni_host_len: cap.sni_host_len,
    }
}

/// The last message that was captured.
pub fn last(s: &CaptureState) -> (r: Option<Captured>)
    ensures
        match (r, s.last) {
            (Some(a), Some(b)) => a.bytes@ == b.bytes@ && a.record_len == b.record_len && a.sni_host == b.sni_host
                && a.sni_host_offset == b.sni_host_offset && a.sni_host_len == b.sni_host_len,
            (None, None) => true,
            _ => false,
        },
{
    match &s.last {
        Some(c) => {
            let bytes: Vec<u8> = copy_range(c.bytes.as_slice(), 0, c.bytes.len());
            assert(bytes@ =~= c.bytes@);
            Some(
                Captured {
                    bytes,
                    record_len: c.record_len,
                    sni_host: copy_text(&c.sni_host),
                    sni_host_offset: c.sni_host_offset,
                    sni_host_len: c.sni_host_len,
                },
            )
        },
        None => None,
    }
}

/// Captures a message, if it is waited for and is a client hello. Then nothing is waited for any more.
pub fn try_capture(s: &mut CaptureState, data: &[u8]) -> (r: CaptureStep)
    ensures
        if old(s).armed && capture_of(data@) is Some {
            !final(s).armed && final(s).out is None && (final(s).last matches Some(c) && c.wf() && Some(c@) == capture_of(
                data@,
            )) && match old(s).out {
                None => r is Notify,
                Some(p) => r matches CaptureStep::Write(q) && q == p,
            }
        } else {
            r is Ignored && *final(s) == *old(s)
        },
{
    let cap: Captured = match parse_for_capture(data) {
        Some(c) => c,
        None => {
            return CaptureStep::Ignored;
        },
    };
    if !s.armed {
        return CaptureStep::Ignored;
    }
    s.armed = false;
    s.last = Some(cap);
    let mut out: Option<String> = None;
    std::mem::swap(&mut out, &mut s.out);
    match out {
        Some(p) => CaptureStep::Write(p),
        None => CaptureStep::Notify,
    }
}

/// Waits for a message again, as the captured one could not be written.
pub fn write_failed(s: &mut CaptureState, path: String)
    ensures
        final(s).armed,
        final(s).out == Some(path),
        final(s).last == old(s).last,
{
    s.armed = true;
    s.out = Some(path);
}

/// A client hello with a session of thirty-two bytes is captured whole and without what follows it, and
/// the place of the name in it is the place where the name stands.
pub proof fn law_hello_captured(version: Seq<u8>, h: HelloParts, name: Seq<u8>, behind: Seq<u8>)
    requires
        version.len() == 2,
        h.session.len() == 32,
        name.len() + 5 <= 65535,
        whole_hello(h, named_extension(name)),
        hello_message(h, named_extension(name)).len() <= 65535,
    ensures
        ({
            let m = hello_message(h, named_extension(name));
            let record = seq![22u8] + version + be16(m.len() as u16) + m;
            let c = capture_of(record + behind);
            &&& c is Some
            &&& (c->0).bytes == record
            &&& (c->0).name is Some
            &&& record.subrange(((c->0).name->0).0, ((c->0).name->0).0 + ((c->0).name->0).1) == name
        }),
{
    let named = named_extension(name);
    let m = hello_message(h, named);
    let head = seq![22u8] + version + be16(m.len() as u16);
    let record = head + m;
    let d = record + behind;
    let n = 5 + m.len() as int;
    lemma_hello_shape(head, h, named, behind);
    assert(head.subrange(3, 5) =~= be16(m.len() as u16));
    lemma_be16_at(m.len() as u16, head, 3);
    law_extensions_found(head, h, named, behind, n);
    law_name_span_found(head, h, name, behind);
    assert(d.take(n) =~= record);
    let place = (5 + hello_front(h).len() + 2 + extension_bytes(h.others).len() + 9) as int;
    assert(record.subrange(place, place + name.len()) =~= d.subrange(place, place + name.len()));
}

/// Nothing else is captured: another kind of record or message, one that is cut off, and one with a
/// session of another length.
pub proof fn law_not_captured(d: Seq<u8>)
    requires
        d.len() < 44 || d[0] != 22 || d[5] != 1 || d[43] != 32 || d.len() < 5 + 256 * d[3] + d[4],
    ensures
        capture_of(d) is None,
{
}

} // verus!
