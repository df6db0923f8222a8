//! Checking that a server still works: what is fetched through it, and what counts as an answer.

use vstd::prelude::*;
use vstd::utf8::encode_utf8;

use crate::address::{frame_target, target_header};
use crate::handler::mentions;
use crate::pool::PoolStats;
use crate::text::{lemma_encode_joined, lines, push_text, same_ignore_case, string_of};
use crate::wire::{find_bytes, found_at};

verus! {

/// How long the first check waits, in seconds.
pub const FIRST_CHECK_SECS: u64 = 2;

/// How long a tunnel or an answer is waited for, in seconds.
pub const CHECK_TIMEOUT_SECS: u64 = 5;

/// The text holds the word.
pub open spec fn holds_word(text: Seq<char>, word: Seq<char>) -> bool {
    mentions(encode_utf8(text), encode_utf8(word))
}

fn has_word(text: &[u8], word: &str) -> (r: bool)
    ensures
        r == mentions(text@, encode_utf8(word@)),
{
    match find_bytes(text, word.as_bytes()) {
        Some(i) => {
            assert(found_at(text@, encode_utf8(word@), i as int));
            true
        },
        None => false,
    }
}

/// The host that a check fetches from, by the address that is configured.
pub open spec fn check_host(url: Seq<char>) -> Seq<char> {
    if holds_word(url, "cloudflare.com"@) {
        "cp.cloudflare.com"@
    } else if holds_word(url, "firefox.com"@) {
        "detectportal.firefox.com"@
    } else {
        "www.gstatic.com"@
    }
}

/// What a check fetches, by the address that is configured.
pub open spec fn check_path(url: Seq<char>) -> Seq<char> {
    if holds_word(url, "cloudflare.com"@) || holds_word(url, "gstatic.com"@) {
        "/generate_204"@
    } else {
        "/success.txt"@
    }
}

/// The request of a check.
pub open spec fn check_request(url: Seq<char>) -> Seq<char> {
    "GET "@ + check_path(url) + " HTTP/1.1\r\nHost: "@ + check_host(url) + "\r\nConnection: close\r\n\r\n"@
}

/// What a check sends: the target, and the request.
pub struct CheckPlan {
    pub header: Vec<u8>,
    pub request: String,
}

/// Works out what a check sends. Checks always go to port eighty of one of three hosts.
pub fn plan_check(url: &str) -> (r: CheckPlan)
    ensures
        r.header@ == target_header(check_host(url@) + ":80"@),
        r.request@ == check_request(url@),
{
    let b: &[u8] = url.as_bytes();
    let cloudflare: bool = has_word(b, "cloudflare.com");
    let firefox: bool = has_word(b, "firefox.com");
    let gstatic: bool = has_word(b, "gstatic.com");
    let host: &str = if cloudflare {
        "cp.cloudflare.com"
    } else if firefox {
        "detectportal.firefox.com"
    } else {
        "www.gstatic.com"
    };
    let path: &str = if cloudflare || gstatic {
        "/generate_204"
    } else {
        "/success.txt"
    };
    let mut target: Vec<char> = Vec::new();
    push_text(&mut target, host);
    push_text(&mut target, ":80");
    assert(target@ =~= check_host(url@) + ":80"@);
    let target: String = string_of(target.as_slice());
    let mut req: Vec<char> = Vec::new();
    push_text(&mut req, "GET ");
    push_text(&mut req, path);
    push_text(&mut req, " HTTP/1.1\r\nHost: ");
    push_text(&mut req, host);
    push_text(&mut req, "\r\nConnection: close\r\n\r\n");
    assert(req@ =~= check_request(url@));
    CheckPlan { header: frame_target(target.as_str()), request: string_of(req.as_slice()) }
}

/// An answer that shows that the server works.
pub open spec fn good_answer(data: Seq<u8>) -> bool {
    mentions(data, encode_utf8("HTTP/1.1 204"@)) || mentions(data, encode_utf8("HTTP/1.1 200"@))
}

/// Whether an answer shows that the server works.
pub fn answer_ok(data: &[u8]) -> (r: bool)
    ensures
        r == good_answer(data@),
{
    has_word(data, "HTTP/1.1 204") || has_word(data, "HTTP/1.1 200")
}

/// Notes how a check went: `answer` is what came back, if anything did, and `took_ms` how long it took.
/// A good answer counts with its time, anything else as a failure.
pub fn note_check(stats: &mut PoolStats, answer: Option<&[u8]>, took_ms: u64, now: u64)
    requires
        old(stats).wf(),
        old(stats).consecutive_failures < u32::MAX,
    ensures
        final(stats).wf(),
        answer matches Some(d) && good_answer(d@) ==> final(stats).consecutive_failures == 0 && final(stats).latency_samples@
            == crate::pool::newest(
            old(stats).latency_samples@.push(took_ms),
            crate::pool::LATENCY_SAMPLES as int,
        ) && final(stats).last_sample_time == Some(now),
        !(answer matches Some(d) && good_answer(d@)) ==> final(stats).consecutive_failures == old(
            stats,
        ).consecutive_failures + 1 && final(stats).latency_samples@ == old(stats).latency_samples@ && final(stats).last_sample_time == old(stats).last_sample_time,
{
    match answer {
        Some(d) => {
            if answer_ok(d) {
                stats.record_latency(took_ms, now);
            } else {
                stats.record_failure();
            }
        },
        None => {
            stats.record_failure();
        },
    }
}

proof fn lemma_word_held(a: Seq<char>, w: Seq<char>, b: Seq<char>)
    ensures
        holds_word(a + w + b, w),
{
    lemma_encode_joined(a + w, b);
    lemma_encode_joined(a, w);
    let t = encode_utf8(a) + encode_utf8(w) + encode_utf8(b);
    let i = encode_utf8(a).len() as int;
    assert(t.subrange(i, i + encode_utf8(w).len()) =~= encode_utf8(w));
    assert(found_at(t, encode_utf8(w), i));
}

/// Which of the three hosts a check goes to, and what it fetches there, is told by a word anywhere in the
/// address that is configured.
pub proof fn law_check_by_word(a: Seq<char>, b: Seq<char>, url: Seq<char>)
    ensures
        check_host(a + "cloudflare.com"@ + b) == "cp.cloudflare.com"@,
        check_path(a + "cloudflare.com"@ + b) == "/generate_204"@,
        check_path(a + "gstatic.com"@ + b) == "/generate_204"@,
        !holds_word(a + "firefox.com"@ + b, "cloudflare.com"@) ==> check_host(a + "firefox.com"@ + b)
            == "detectportal.firefox.com"@,
        !holds_word(url, "cloudflare.com"@) && !holds_word(url, "firefox.com"@) ==> check_host(url) == "www.gstatic.com"@,
        !holds_word(url, "cloudflare.com"@) && !holds_word(url, "gstatic.com"@) ==> check_path(url) == "/success.txt"@,
{
    lemma_word_held(a, "cloudflare.com"@, b);
    lemma_word_held(a, "gstatic.com"@, b);
    lemma_word_held(a, "firefox.com"@, b);
}

/// An answer is good where one of the two good status lines stands anywhere in it, and nowhere else.
pub proof fn law_good_answers(a: Seq<u8>, b: Seq<u8>, d: Seq<u8>)
    ensures
        good_answer(a + encode_utf8("HTTP/1.1 204"@) + b),
        good_answer(a + encode_utf8("HTTP/1.1 200"@) + b),
        (forall|i: int| !found_at(d, encode_utf8("HTTP/1.1 204"@), i)) && (forall|i: int|
            !found_at(d, encode_utf8("HTTP/1.1 200"@), i)) ==> !good_answer(d),
{
    let i = a.len() as int;
    let w = encode_utf8("HTTP/1.1 204"@);
    let t = a + w + b;
    assert(t.subrange(i, i + w.len()) =~= w);
    assert(found_at(t, w, i));
    let v = encode_utf8("HTTP/1.1 200"@);
    let u = a + v + b;
    assert(u.subrange(i, i + v.len()) =~= v);
    assert(found_at(u, v, i));
}

/// The request of a check is one that names the host it goes to, and asks for what is to be fetched.
pub proof fn law_check_names_host(url: Seq<char>)
    ensures
        crate::sniff::http_name(encode_utf8(check_request(url))) == Some(check_host(url)),
        lines(check_request(url))[0] == "GET "@ + check_path(url) + " HTTP/1.1"@,
{
    reveal_strlit("GET ");
    reveal_strlit(" HTTP/1.1\r\nHost: ");
    reveal_strlit(" HTTP/1.1");
    reveal_strlit("\r\nConnection: close\r\n\r\n");
    reveal_strlit("cp.cloudflare.com");
    reveal_strlit("detectportal.firefox.com");
    reveal_strlit("www.gstatic.com");
    reveal_strlit("/generate_204");
    reveal_strlit("/success.txt");
    reveal_strlit("host:");
    let h = check_host(url);
    let p = check_path(url);
    let first = "GET "@ + p + " HTTP/1.1"@;
    let name = seq!['H', 'o', 's', 't', ':'];
    let none = Seq::<char>::empty();
    let rest = "Connection: close\r\n\r\n"@;
    reveal_strlit("Connection: close\r\n\r\n");
    let line = name + (seq![' '] + (h + none) + none);
    assert(same_ignore_case(name, "host:"@));
    assert(h.len() > 0);
    assert forall|i: int| 0 <= i < h.len() implies !crate::text::is_white(#[trigger] h[i]) && h[i] != ':' by {}
    assert forall|i: int| 0 <= i < p.len() implies p[i] != '\n' by {}
    assert forall|i: int| 0 <= i < first.len() implies first[i] != '\n' by {}
    assert(first[0] == 'G');
    assert(crate::sniff::other_line(first)) by {
        if same_ignore_case(first.take(5), "host:"@) {
            assert(crate::text::lower(first.take(5)[0]) == crate::text::lower("host:"@[0]));
        }
    }
    let ls = seq![first] + seq![line];
    crate::sniff::law_request_host(seq![first], name, (seq![' '], none), h, none, rest);
    assert(ls.drop_first() =~= seq![line]);
    assert(seq![line].drop_first() =~= seq![]);
    reveal_with_fuel(crate::mixed::head_lines, 3);
    assert(check_request(url) =~= crate::mixed::head_lines(ls) + rest);
    crate::text::law_first_line(first, line + seq!['\r', '\n'] + rest);
    assert(check_request(url) =~= first + seq!['\r', '\n'] + (line + seq!['\r', '\n'] + rest));
}

} // verus!
