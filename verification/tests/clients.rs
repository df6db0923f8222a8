use mirage::entry::{relay_idle, serve_next, Entry, EntryAction, EntryEvent, EntryStage, ServeAction, ServeEvent};
use mirage::handler::{
    failure_reason, fake_candidate, human_bytes, plan_target, Direction, FailKind, Phase, RelayAction,
    RelayEvent,
};
use mirage::ip::{IpAddr, SocketAddr};
use mirage::mixed::{b64_decode, detect, http_auth_ok, plan_head, plan_request, read_head, HeadStep, HttpPlan, Protocol};
use mirage::probe::{
    auth_timeout, handshake_timeout, is_http_answer, judge_probe, parse_http_probe_url, plan_fetch, AuthResult,
    ProbeOutcome,
};
use mirage::proc_lookup::{find_inode, link_text, lookup_plan, pid_of, proc_hex_local, program_name};
use mirage::server::{
    answer_delay_us, hello_token, rate_limit_key, read_request, record_len, reply_packet,
    split_tunnel_target, stream_exit, stream_target_len, take_datagrams, time_frame, udp_egress, Control, ControlStep,
    Request, StopOnce, StreamExit, UdpEgress, Unauth,
};
use mirage::shadowsocks::{Method, SsConfig};
use mirage::sniff::{parse_http_host, parse_tls_sni, sniff};
use mirage::socks5::{Handshake, InboundAuth, SocksCommand, SocksError};
use mirage::splice::{Splice, SpliceStep};
use mirage::tls_capture::{
    arm, is_armed, last, parse_for_capture, try_capture, write_failed, CaptureState, CaptureStep, sidecar,
};
use mirage::transparent::{intercepted_target, route_cleanup, route_installed, route_net, target_text, udp_bind, Route};
use mirage::upstream::{UdpPolicy, UpstreamOutlet, WgUpstream};
use mirage::wg::WgConfig;

fn cred(u: &str, p: &str) -> InboundAuth {
    InboundAuth { username: u.to_string(), password: p.to_string() }
}

fn craft_ch() -> Vec<u8> {
    let host = b"ex.com";
    let mut sni = vec![0u8, 0];
    let inner = 2 + 1 + 2 + host.len();
    sni.extend_from_slice(&(inner as u16).to_be_bytes());
    sni.extend_from_slice(&((1 + 2 + host.len()) as u16).to_be_bytes());
    sni.push(0);
    sni.extend_from_slice(&(host.len() as u16).to_be_bytes());
    sni.extend_from_slice(host);
    let mut body = vec![0x03, 0x03];
    body.extend_from_slice(&[0u8; 32]);
    body.push(32);
    body.extend_from_slice(&[0u8; 32]);
    body.extend_from_slice(&[0x00, 0x02, 0x13, 0x01]);
    body.extend_from_slice(&[0x01, 0x00]);
    body.extend_from_slice(&(sni.len() as u16).to_be_bytes());
    body.extend_from_slice(&sni);
    let mut hs = vec![0x01];
    hs.extend_from_slice(&(body.len() as u32).to_be_bytes()[1..]);
    hs.extend_from_slice(&body);
    let mut rec = vec![0x16, 0x03, 0x01];
    rec.extend_from_slice(&(hs.len() as u16).to_be_bytes());
    rec.extend_from_slice(&hs);
    rec
}

#[test]
fn b64_known_vectors() {
    assert_eq!(b64_decode("YWxhZGRpbjpvcGVuc2VzYW1l").unwrap(), b"aladdin:opensesame");
    assert_eq!(b64_decode("YQ==").unwrap(), b"a");
    assert_eq!(b64_decode("YWI=").unwrap(), b"ab");
    assert_eq!(b64_decode("YWJj").unwrap(), b"abc");
    assert_eq!(b64_decode("").unwrap(), b"");
    assert!(b64_decode("!!!!").is_none());
}

#[test]
fn accepts_valid_basic() {
    let h = "CONNECT x:443 HTTP/1.1\r\nProxy-Authorization: Basic dTpw\r\n\r\n";
    assert!(http_auth_ok(h, &cred("u", "p")));
}

#[test]
fn rejects_wrong_or_missing() {
    let good = "CONNECT x:443 HTTP/1.1\r\nProxy-Authorization: Basic dTpw\r\n\r\n";
    assert!(!http_auth_ok(good, &cred("u", "WRONG")));
    assert!(!http_auth_ok(good, &cred("WRONG", "p")));
    assert!(!http_auth_ok("CONNECT x:443 HTTP/1.1\r\n\r\n", &cred("u", "p")));
    let wrong_header = "CONNECT x:443 HTTP/1.1\r\nAuthorization: Basic dTpw\r\n\r\n";
    assert!(!http_auth_ok(wrong_header, &cred("u", "p")));
}

#[test]
fn header_name_case_insensitive() {
    let h = "CONNECT x:443 HTTP/1.1\r\nPROXY-AUTHORIZATION: Basic dTpw\r\n\r\n";
    assert!(http_auth_ok(h, &cred("u", "p")));
}

#[test]
fn password_may_contain_colon() {
    let h = "CONNECT x:443 HTTP/1.1\r\nProxy-Authorization: Basic dTphOmI=\r\n\r\n";
    assert!(http_auth_ok(h, &cred("u", "a:b")));
}

#[test]
fn requests_are_planned_by_their_head() {
    let mut buf = Vec::new();
    assert_eq!(read_head(&mut buf, b"CONNECT h:443 HTTP/1.1\r\n"), HeadStep::More);
    let n = match read_head(&mut buf, b"\r\nrest") {
        HeadStep::Complete(n) => n,
        _ => panic!("the head is complete"),
    };
    match plan_request(&buf, n, &None) {
        HttpPlan::Go(t, rest, connect) => {
            assert_eq!((t.as_str(), connect), ("h:443", true));
            assert_eq!(rest, b"rest");
        }
        _ => panic!("the request is right"),
    }
    assert!(matches!(plan_request(&buf, n, &Some(cred("u", "p"))), HttpPlan::AuthRequired));
    assert_eq!(read_head(&mut buf, b""), HeadStep::Close);
}

#[test]
fn requests_to_web_servers_are_rewritten() {
    let text = "GET http://h.example/a?b HTTP/1.1\r\nHost: h.example\r\n\r\n";
    let buf = text.as_bytes().to_vec();
    match plan_head(&buf, buf.len(), text, &None) {
        HttpPlan::Go(t, first, connect) => {
            assert_eq!((t.as_str(), connect), ("h.example:80", false));
            assert_eq!(first, b"GET /a?b HTTP/1.1\r\nHost: h.example\r\n\r\n");
        }
        _ => panic!("the request is right"),
    }
    let plain = "GET /a HTTP/1.1\r\nHost: h.example:8080\r\n\r\n";
    match plan_head(&plain.as_bytes().to_vec(), plain.len(), plain, &None) {
        HttpPlan::Go(t, first, _) => {
            assert_eq!(t, "h.example:8080");
            assert_eq!(first, plain.as_bytes());
        }
        _ => panic!("the host is named"),
    }
    assert!(matches!(plan_head(&b"GET /\r\n\r\n".to_vec(), 9, "GET /\r\n\r\n", &None), HttpPlan::Close));
}

#[test]
fn clients_are_told_apart_by_their_first_byte() {
    assert_eq!(detect(Some(5)), Protocol::Socks);
    assert_eq!(detect(Some(b'G')), Protocol::Http);
    assert_eq!(detect(None), Protocol::Gone);
}

fn say(h: &mut Handshake, bytes: &[u8]) -> (Vec<u8>, Option<Result<SocksCommand, SocksError>>) {
    let mut reply = Vec::new();
    let mut at = 0;
    while at < bytes.len() {
        let n = h.need();
        let a = h.feed(&bytes[at..at + n]);
        at = at + n;
        reply.extend(a.reply);
        if a.outcome.is_some() {
            return (reply, a.outcome);
        }
    }
    (reply, None)
}

const CONNECT_REQ: &[u8] = &[0x05, 0x01, 0x00, 0x01, 1, 2, 3, 4, 0x00, 0x50];

#[test]
fn userpass_success() {
    let mut h = Handshake::new(Some(cred("alice", "s3cret")));
    assert_eq!(say(&mut h, &[0x05, 0x01, 0x02]).0, [0x05, 0x02]);
    let login = [0x01, 5, b'a', b'l', b'i', b'c', b'e', 6, b's', b'3', b'c', b'r', b'e', b't'];
    assert_eq!(say(&mut h, &login).0, [0x01, 0x00]);
    match say(&mut h, CONNECT_REQ).1 {
        Some(Ok(SocksCommand::TcpConnect(t))) => assert_eq!(t, "1.2.3.4:80"),
        _ => panic!("a connection is asked for"),
    }
}

#[test]
fn wrong_password_rejected() {
    let mut h = Handshake::new(Some(cred("alice", "s3cret")));
    say(&mut h, &[0x05, 0x01, 0x02]);
    let (reply, outcome) = say(&mut h, &[0x01, 5, b'a', b'l', b'i', b'c', b'e', 3, b'b', b'a', b'd']);
    assert_eq!(reply, [0x01, 0x01]);
    assert!(matches!(outcome, Some(Err(SocksError::AuthFailed))));
}

#[test]
fn no_auth_method_cannot_bypass() {
    let mut h = Handshake::new(Some(cred("alice", "s3cret")));
    let (reply, outcome) = say(&mut h, &[0x05, 0x01, 0x00]);
    assert_eq!(reply, [0x05, 0xFF]);
    assert!(matches!(outcome, Some(Err(SocksError::NoUserPass))));
}

#[test]
fn no_auth_configured_still_works() {
    let mut h = Handshake::new(None);
    assert_eq!(say(&mut h, &[0x05, 0x01, 0x00]).0, [0x05, 0x00]);
    assert!(matches!(say(&mut h, CONNECT_REQ).1, Some(Ok(_))));
}

#[test]
fn each_socks_error_has_its_input() {
    assert!(matches!(say(&mut Handshake::new(None), &[4, 1, 0]).1, Some(Err(SocksError::Version(4)))));
    let after_greeting = |request: &[u8]| {
        let mut h = Handshake::new(None);
        say(&mut h, &[5, 1, 0]);
        say(&mut h, request).1
    };
    assert!(matches!(after_greeting(&[4, 1, 0, 1]), Some(Err(SocksError::RequestVersion))));
    assert!(matches!(after_greeting(&[5, 2, 0, 1, 1, 2, 3, 4, 0, 80]), Some(Err(SocksError::Command))));
    assert!(matches!(after_greeting(&[5, 1, 0, 9]), Some(Err(SocksError::AddressType))));
    assert!(matches!(after_greeting(&[5, 1, 0, 3, 1, 0xFF, 0, 80]), Some(Err(SocksError::NameNotUtf8))));
    assert!(matches!(after_greeting(&[5, 3, 0, 1, 0, 0, 0, 0, 0, 0]), Some(Ok(SocksCommand::UdpAssociate))));
    match after_greeting(&[5, 1, 0, 3, 2, b'a', b'b', 1, 0xBB]) {
        Some(Ok(SocksCommand::TcpConnect(t))) => assert_eq!(t, "ab:443"),
        _ => panic!("a name is asked for"),
    }
    let mut h = Handshake::new(Some(cred("a", "b")));
    say(&mut h, &[5, 1, 2]);
    assert!(matches!(say(&mut h, &[9]).1, Some(Err(SocksError::AuthVersion(9)))));
}

#[test]
fn parse_probe_url_variants() {
    assert_eq!(
        parse_http_probe_url("http://www.gstatic.com/generate_204"),
        Some(("www.gstatic.com".into(), 80, "/generate_204".into()))
    );
    assert_eq!(parse_http_probe_url("http://example.com:8080/x"), Some(("example.com".into(), 8080, "/x".into())));
    assert_eq!(parse_http_probe_url("http://example.com"), Some(("example.com".into(), 80, "/".into())));
    assert!(parse_http_probe_url("https://example.com/").is_none());
    assert!(parse_http_probe_url("example.com/x").is_none());
    assert!(parse_http_probe_url("http:///path").is_none());
    assert_eq!(parse_http_probe_url("http://[::1]:8080/x"), Some(("[::1]".into(), 8080, "/x".into())));
    assert_eq!(parse_http_probe_url("http://[2001:db8::1]/"), Some(("[2001:db8::1]".into(), 80, "/".into())));
    assert!(parse_http_probe_url("http://[]/x").is_none());
}

#[test]
fn probes_are_judged() {
    assert_eq!((handshake_timeout(8), handshake_timeout(20)), (15, 20));
    assert_eq!((auth_timeout(8), auth_timeout(2)), (3, 2));
    let p = plan_fetch("http://h:81/x").unwrap();
    assert_eq!(&p.header, &[0, 4, b'h', b':', b'8', b'1']);
    assert_eq!(
        p.request,
        "GET /x HTTP/1.0\r\nHost: h\r\nUser-Agent: mirage-probe\r\nConnection: close\r\n\r\n"
    );
    assert!(plan_fetch("ftp://h").is_none());
    assert!(is_http_answer(b"HTTP/1.0 200"));
    assert!(!is_http_answer(b"HTT"));
    assert!(matches!(
        judge_probe(AuthResult::Opened, 1, 2, Some(3)),
        ProbeOutcome::Works { tcp_ms: 1, handshake_ms: 2, http_ms: Some(3) }
    ));
    assert!(matches!(judge_probe(AuthResult::Late, 1, 2, None), ProbeOutcome::Unconfirmed { tcp_ms: 1, .. }));
    match judge_probe(AuthResult::Failed("why".to_string()), 1, 2, None) {
        ProbeOutcome::Fail(m) => assert!(m.ends_with("why")),
        _ => panic!("the server was not recognised"),
    }
}

#[test]
fn proc_hex_v4() {
    assert_eq!(proc_hex_local(SocketAddr::V4([127, 0, 0, 1], 8080)), "0100007F:1F90");
}

#[test]
fn proc_hex_v6_loopback() {
    let mut o = [0u8; 16];
    o[15] = 1;
    let h = proc_hex_local(SocketAddr::V6(o, 443, 0));
    assert!(h.ends_with(":01BB"), "{h}");
    assert_eq!(h, "00000000000000000000000001000000:01BB");
}

#[test]
fn non_loopback_is_none() {
    assert!(lookup_plan(&SocketAddr::V4([8, 8, 8, 8], 53)).is_none());
}

#[test]
fn programs_are_found_by_their_sockets() {
    let (path, want) = lookup_plan(&SocketAddr::V4([127, 0, 0, 1], 8080)).unwrap();
    assert_eq!(path, "/proc/net/tcp");
    let listing = format!(
        "  sl  local_address rem_address   st tx_queue rx_queue tr tm->when retrnsmt   uid  timeout inode\n   \
         0: 0100007F:0050 00000000:0000 0A 0:0 0:0 0 0 0 7 1\n   1: {want} 0100007F:0051 01 0:0 0:0 0 0 0 4242 1\n"
    );
    assert_eq!(find_inode(&listing, &want), Some(4242));
    assert_eq!(find_inode(&listing, "none"), None);
    assert_eq!(link_text(4242), "socket:[4242]");
    assert_eq!((pid_of("123"), pid_of("self")), (Some(123), None));
    assert_eq!(program_name("curl\n"), Some("curl".to_string()));
    assert_eq!(program_name("\n"), None);
}

#[test]
fn parse_extracts_sni_and_offsets() {
    let ch = craft_ch();
    let c = parse_for_capture(&ch).expect("a regular first message");
    assert_eq!(c.record_len, ch.len());
    assert_eq!(c.sni_host.as_deref(), Some("ex.com"));
    assert_eq!(c.sni_host_offset, Some(93));
    assert_eq!(c.sni_host_len, Some(6));
    let beside = sidecar(&c);
    assert_eq!(
        beside.note,
        "Mirage fake-TLS 指纹模板 (真浏览器 ClientHello). 回放时替换 session_id/random/SNI。"
    );
    assert_eq!(beside.record_len, c.record_len);
    assert_eq!(beside.session_id_offset, 44);
    assert_eq!(beside.random_offset, 11);
    assert_eq!(beside.sni_host.as_deref(), Some("ex.com"));
    assert_eq!(beside.sni_host_offset, Some(93));
    assert_eq!(beside.sni_host_len, Some(6));
}

#[test]
fn rejects_truncated_and_non_ch() {
    assert!(parse_for_capture(&[0x16, 0x03, 0x01]).is_none());
    let mut ch = craft_ch();
    ch.truncate(ch.len() - 3);
    assert!(parse_for_capture(&ch).is_none());
}

#[test]
fn one_message_is_captured() {
    let mut s = CaptureState { armed: false, out: None, last: None };
    assert!(matches!(try_capture(&mut s, &craft_ch()), CaptureStep::Ignored));
    arm(&mut s, Some("/tmp/x".to_string()));
    assert!(is_armed(&s));
    assert!(matches!(try_capture(&mut s, b"GET /"), CaptureStep::Ignored));
    assert!(matches!(try_capture(&mut s, &craft_ch()), CaptureStep::Write(p) if p == "/tmp/x"));
    assert!(!is_armed(&s));
    assert_eq!(last(&s).unwrap().bytes, craft_ch());
    write_failed(&mut s, "/tmp/x".to_string());
    assert!(is_armed(&s));
}

#[test]
fn names_are_sniffed() {
    assert_eq!(parse_tls_sni(&craft_ch()), Some("ex.com".to_string()));
    assert_eq!(parse_tls_sni(&craft_ch()[..60]), None);
    let get = b"GET / HTTP/1.1\r\nHost: h.example:8080\r\n\r\n";
    assert_eq!(parse_http_host(get), Some("h.example".to_string()));
    assert_eq!(sniff(get), Some("h.example".to_string()));
    assert_eq!(sniff(&craft_ch()), Some("ex.com".to_string()));
    assert_eq!(sniff(b"SSH-2.0-x"), None);
}

#[test]
fn sizes_are_written_for_people() {
    assert_eq!(human_bytes(0), "0B");
    assert_eq!(human_bytes(1023), "1023B");
    assert_eq!(human_bytes(1536), "1.5K");
    assert_eq!(human_bytes(5 * 1024 * 1024 + 1024 * 100), "5.1M");
    for n in [1u64, 1024, 1300, 65535, 1_048_575, 1_048_576, 99_999_999, 123_456_789_012, u64::MAX] {
        let want = if n >= 1024 * 1024 {
            format!("{:.1}M", n as f64 / (1024.0 * 1024.0))
        } else if n >= 1024 {
            format!("{:.1}K", n as f64 / 1024.0)
        } else {
            format!("{n}B")
        };
        assert_eq!(human_bytes(n), want);
    }
}

#[test]
fn targets_are_planned_with_the_name_they_stand_for() {
    assert_eq!(fake_candidate("198.18.0.5:443"), Some([198, 18, 0, 5]));
    assert_eq!(fake_candidate("h:443"), None);
    let p = plan_target("198.18.0.5:443", Some("h.example".to_string()));
    assert_eq!((p.target.as_str(), p.host.as_str(), p.port), ("h.example:443", "h.example", 443));
    assert_eq!((p.domain.as_deref(), p.ip), (Some("h.example"), None));
    let q = plan_target("1.2.3.4:80", None);
    assert_eq!((q.domain, q.ip), (None, Some(IpAddr::V4([1, 2, 3, 4]))));
}

#[test]
fn bytes_count_once_they_are_written() {
    let mut d = Direction::new();
    assert_eq!(d.on(true, RelayEvent::Read(10)), RelayAction::Write);
    assert_eq!(d.bytes, 0);
    assert_eq!(d.on(true, RelayEvent::Written), RelayAction::Read);
    assert_eq!(d.bytes, 10);
    assert_eq!(d.on(true, RelayEvent::Read(0)), RelayAction::CloseNotify);
    assert_eq!(d.phase, Phase::Done);
    assert_eq!(d.on(true, RelayEvent::Written), RelayAction::Stop);
    assert_eq!(failure_reason(FailKind::TimedOut, "relay idle for long"), "idle_timeout");
    assert_eq!(failure_reason(FailKind::TimedOut, "connect"), "timeout");
    assert_eq!(failure_reason(FailKind::ConnectionReset, ""), "conn_reset");
}

#[test]
fn first_messages_are_judged() {
    assert_eq!(record_len(&[0x16, 3, 1, 0, 200]), Some(200));
    assert_eq!(record_len(&[0x16, 3, 1, 0, 0]), None);
    assert_eq!(record_len(&[0x16, 3, 1, 0x40, 1]), None);
    let ch = craft_ch();
    let fields = hello_token(ch[0], &ch[5..]);
    assert_eq!(fields, Some(([0u8; 32], [0u8; 32])));
    assert_eq!(hello_token(0x17, &ch[5..]), None);
}

#[test]
fn strangers_are_limited_by_network() {
    let mut a = [0x20u8; 16];
    let k = rate_limit_key(IpAddr::V6(a));
    a[15] = 7;
    assert_eq!(rate_limit_key(IpAddr::V6(a)), k);
    let mut u = Unauth::new();
    let ip = IpAddr::V4([1, 2, 3, 4]);
    for _ in 0..100 {
        assert_eq!(u.enter(ip), Some(ip));
    }
    assert_eq!(u.enter(ip), None);
    assert_eq!(u.enter(IpAddr::V6(a)), Some(k));
    u.release(ip);
    assert_eq!(u.enter(ip), Some(ip));
    assert_eq!(answer_delay_us(1000, 0), 750);
    assert_eq!(answer_delay_us(1000, 50), 1250);
}

#[test]
fn servers_tell_the_time() {
    assert_eq!(time_frame(1, 258), vec![1, 1, 0, 0, 0, 0, 0, 0, 1, 2]);
    assert_eq!(mirage::pool::parse_time_sync(&time_frame(1, 77)), Some(77));
}

#[test]
fn requests_in_a_tunnel_are_read() {
    assert!(matches!(read_request(&[0], false), Request::Udp));
    assert!(matches!(read_request(&[1], false), Request::Mux));
    assert!(matches!(read_request(&[0], true), Request::Refused));
    assert!(matches!(read_request(&[0, 3, b'h', b':', b'1', 9], true), Request::Tcp(t, p) if t == "h:1" && p == [9]));
    assert!(matches!(read_request(&[0, 9, b'h'], false), Request::Malformed));
    let mut c = Control::new(true, true, false);
    assert!(matches!(c.on_chunk(&[7], true, false), ControlStep::AnswerOffer));
    assert!(matches!(c.on_chunk(&[7], false, true), ControlStep::NoteVersion));
    assert!(matches!(c.on_chunk(&[1], true, true), ControlStep::Serve(Request::Mux)));
    assert_eq!(split_tunnel_target("[::1]:80"), Some(("::1".to_string(), 80)));
    assert_eq!(split_tunnel_target("h"), None);
    assert_eq!(stream_target_len(&[0, 5]), Some(5));
    assert_eq!(stream_target_len(&[2, 1]), None);
}

#[test]
fn datagrams_in_a_tunnel_are_taken_whole() {
    let p = reply_packet(&SocketAddr::V4([1, 2, 3, 4], 53), b"x");
    assert_eq!(p, vec![0, 8, 1, 1, 2, 3, 4, 0, 53, b'x']);
    let mut acc = Vec::new();
    assert!(take_datagrams(&mut acc, &p[..5]).is_empty());
    let d = take_datagrams(&mut acc, &p[5..]);
    assert_eq!(d.len(), 1);
    assert_eq!((d[0].host.as_str(), d[0].port, d[0].payload.as_slice()), ("1.2.3.4", 53, &b"x"[..]));
}

#[test]
fn outlets_decide_on_datagrams() {
    let wg = WgConfig {
        private_key: [1; 32],
        peer_public_key: [2; 32],
        preshared_key: None,
        endpoint: "1.2.3.4:51820".to_string(),
        address: IpAddr::V4([10, 0, 0, 2]),
        mtu: 1420,
        persistent_keepalive: None,
        dns: None,
    };
    let tunnel = UpstreamOutlet::Wireguard(WgUpstream::new(wg, UdpPolicy::Tunnel));
    assert_eq!(tunnel.udp_policy(), UdpPolicy::Tunnel);
    assert_eq!(tunnel.describe(), "WireGuard 1.2.3.4:51820");
    let up = Some(tunnel);
    assert_eq!(stream_exit(&up), StreamExit::Wireguard);
    assert_eq!(udp_egress(&up), UdpEgress::Wireguard);
    let ss = UpstreamOutlet::Shadowsocks(SsConfig {
        server: "s".to_string(),
        port: 8388,
        password: "p".to_string(),
        method: Method::Aes128Gcm,
        block_udp: true,
    });
    assert!(ss.block_udp());
    assert_eq!(ss.describe(), "Shadowsocks s:8388");
    assert_eq!(stream_exit(&Some(ss)), StreamExit::Shadowsocks);
    assert_eq!(stream_exit(&None), StreamExit::Direct);
    let mut s = StopOnce { fd: 4 };
    assert_eq!((s.take(), s.take()), (Some(4), None));
}

#[test]
fn a_pipe_loses_nothing() {
    let mut s = Splice::new();
    assert_eq!(s.next(), SpliceStep::Fill);
    assert_eq!(s.filled(10), SpliceStep::Drain(10));
    assert_eq!(s.drained(4), SpliceStep::Drain(6));
    assert_eq!(s.drained(6), SpliceStep::Fill);
    assert_eq!((s.in_pipe, s.total), (0, 10));
    assert_eq!(s.filled(0), SpliceStep::Finish);
    s.filled(3);
    assert_eq!(s.drained(0), SpliceStep::WriteZero);
}

#[test]
fn intercepted_connections_go_where_they_were_meant_to() {
    let there = SocketAddr::V4([198, 18, 0, 5], 443);
    let here = SocketAddr::V4([127, 0, 0, 1], 1234);
    assert_eq!(intercepted_target(there, None, 1234), Some(([198, 18, 0, 5], 443)));
    assert_eq!(intercepted_target(here, Some(there), 1234), Some(([198, 18, 0, 5], 443)));
    assert_eq!(intercepted_target(here, None, 1234), None);
    assert_eq!(intercepted_target(here, Some(here), 1234), None);
    let o = [1, 2, 3, 4];
    assert_eq!(target_text(&o, 443, &Some("a".to_string()), &Some("b".to_string())), "a:443");
    assert_eq!(target_text(&o, 443, &None, &Some("b".to_string())), "b:443");
    assert_eq!(target_text(&o, 443, &None, &None), "1.2.3.4:443");
    assert_eq!(udp_bind("0.0.0.0:1080"), Some(([0, 0, 0, 0], 1080)));
    assert_eq!(udp_bind("[::]:1080"), None);
}

#[test]
fn a_route_is_removed_once() {
    assert_eq!(route_net(&[198, 18, 0, 0], 15), "198.18.0.0/15");
    let mut r = Route { installed: None };
    route_installed(&mut r, [198, 18, 0, 0], 15, false);
    assert_eq!(route_cleanup(&mut r), None);
    route_installed(&mut r, [198, 18, 0, 0], 15, true);
    assert_eq!(route_cleanup(&mut r), Some("198.18.0.0/15".to_string()));
    assert_eq!(route_cleanup(&mut r), None);
}

#[test]
fn clients_with_the_right_token_are_served() {
    let ch = craft_ch();
    let mut e = Entry::new(true);
    assert_eq!(e.on(EntryEvent::Bytes(ch[..5].to_vec())), EntryAction::Read(ch.len() - 5));
    assert_eq!(e.on(EntryEvent::Bytes(ch[5..].to_vec())), EntryAction::CheckToken);
    assert_eq!(e.hello, ch);
    assert_eq!(e.on(EntryEvent::Token(true)), EntryAction::MakeKey);
    assert_eq!(e.on(EntryEvent::Done), EntryAction::FetchAnswer);
    assert_eq!(e.on(EntryEvent::Answer(1000, 25)), EntryAction::Pause(1000));
    assert_eq!(e.on(EntryEvent::Done), EntryAction::SendAnswer);
    assert_eq!(e.on(EntryEvent::Done), EntryAction::Read(64));
    assert_eq!(e.on(EntryEvent::Bytes(vec![0; 64])), EntryAction::Agree);
    assert_eq!(e.on(EntryEvent::Done), EntryAction::Serve);
    assert_eq!(e.on(EntryEvent::Done), EntryAction::Close);
}

#[test]
fn pauses_stay_near_the_round_trip_time() {
    for _ in 0..200 {
        let mut e = Entry::new(false);
        e.stage = EntryStage::Template;
        match e.answered(1000) {
            EntryAction::Pause(us) => assert!((750..=1250).contains(&us)),
            _ => panic!("a pause is expected"),
        }
    }
    let mut e = Entry::new(false);
    e.stage = EntryStage::Template;
    assert_eq!(e.answered(0), EntryAction::SendAnswer);
}

#[test]
fn strangers_see_the_camouflage_site() {
    let ch = craft_ch();
    let mut e = Entry::new(false);
    e.on(EntryEvent::Bytes(ch[..5].to_vec()));
    e.on(EntryEvent::Bytes(ch[5..].to_vec()));
    assert_eq!(e.on(EntryEvent::Token(false)), EntryAction::Camouflage);
    assert_eq!(e.stage, EntryStage::Over);
    let mut web = Entry::new(false);
    assert_eq!(web.on(EntryEvent::Bytes(vec![0x17, 3, 3, 0, 2])), EntryAction::Read(2));
    assert_eq!(web.on(EntryEvent::Bytes(vec![1, 2])), EntryAction::Camouflage);
    assert_eq!(web.hello, vec![0x17, 3, 3, 0, 2, 1, 2]);
    assert_eq!(Entry::new(false).on(EntryEvent::Bytes(vec![0x16, 3, 1, 0, 0])), EntryAction::Close);
    assert_eq!(Entry::new(false).on(EntryEvent::Failed), EntryAction::Close);
}

#[test]
fn relays_end_with_a_word_to_the_client() {
    assert_eq!(serve_next(true, ServeEvent::Read(0)), ServeAction::Write);
    assert_eq!(serve_next(true, ServeEvent::Failed), ServeAction::Stop);
    assert_eq!(serve_next(false, ServeEvent::Read(0)), ServeAction::NotifyAndStop);
    assert_eq!(serve_next(false, ServeEvent::Read(9)), ServeAction::Write);
    assert_eq!(serve_next(false, ServeEvent::Written), ServeAction::Read);
    assert_eq!(relay_idle(&None), 1800);
    assert_eq!(relay_idle(&Some(" 60 ".to_string())), 60);
    assert_eq!(relay_idle(&Some("2".to_string())), 5);
    assert_eq!(relay_idle(&Some("x".to_string())), 1800);
}
