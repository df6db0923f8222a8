use mirage::ip::{parse_ip_str, parse_socket, IpAddr, SocketAddr};
use mirage::monitor::{
    add_down, add_up, archive_name, shift_order, Counters, MemoryWriter, MonitoredReader, RotateOutcome, RotatingFile,
};
use mirage::net_monitor::{bump, changed_in, should_bump, spawn_monitor, NetMonitor};
use mirage::net_util::join_host_port;
use mirage::node_uri::{percent_decode, NodeUri, UriError};

fn nlmsg(nlmsg_type: u16, payload: &[u8]) -> Vec<u8> {
    let len = 16 + payload.len();
    let mut m = Vec::new();
    m.extend_from_slice(&(len as u32).to_ne_bytes());
    m.extend_from_slice(&nlmsg_type.to_ne_bytes());
    m.extend_from_slice(&0u16.to_ne_bytes());
    m.extend_from_slice(&0u32.to_ne_bytes());
    m.extend_from_slice(&0u32.to_ne_bytes());
    m.extend_from_slice(payload);
    while m.len() % 4 != 0 {
        m.push(0);
    }
    m
}

fn rtmsg(dst_len: u8) -> Vec<u8> {
    let mut p = vec![0u8; 12];
    p[1] = dst_len;
    p
}

fn socket(s: &str) -> Option<SocketAddr> {
    let c: Vec<char> = s.chars().collect();
    parse_socket(&c)
}

#[test]
fn archive_name_format() {
    let p = "/var/log/mirage/server.log";
    assert_eq!(archive_name(p, 1), "/var/log/mirage/server.log.1.gz");
    assert_eq!(archive_name(p, 10), "/var/log/mirage/server.log.10.gz");
}

#[test]
fn default_route_triggers() {
    assert!(should_bump(&nlmsg(24, &rtmsg(0))));
    assert!(should_bump(&nlmsg(25, &rtmsg(0))));
}

#[test]
fn specific_route_noise_ignored() {
    assert!(!should_bump(&nlmsg(24, &rtmsg(24))));
    assert!(!should_bump(&nlmsg(25, &rtmsg(32))));
    let mut buf = nlmsg(24, &rtmsg(24));
    buf.extend(nlmsg(25, &rtmsg(32)));
    buf.extend(nlmsg(24, &rtmsg(16)));
    assert!(!should_bump(&buf));
}

#[test]
fn link_and_addr_always_trigger() {
    for t in [16u16, 17, 20, 21] {
        assert!(should_bump(&nlmsg(t, &[0u8; 8])), "message type {t}");
    }
}

#[test]
fn mixed_burst_default_route_wins() {
    let mut buf = nlmsg(24, &rtmsg(24));
    buf.extend(nlmsg(24, &rtmsg(0)));
    buf.extend(nlmsg(25, &rtmsg(32)));
    assert!(should_bump(&buf));
}

#[test]
fn garbage_and_truncation_no_panic() {
    assert!(!should_bump(&[]));
    assert!(!should_bump(&[1, 2, 3]));
    let mut m = 999u32.to_ne_bytes().to_vec();
    m.extend_from_slice(&24u16.to_ne_bytes());
    m.extend_from_slice(&[0u8; 10]);
    assert!(!should_bump(&m));
    let mut bad = 8u32.to_ne_bytes().to_vec();
    bad.extend_from_slice(&[0u8; 12]);
    assert!(!should_bump(&bad));
}

#[test]
fn byte_order_of_the_machine_is_used() {
    let little = nlmsg(16, &[0u8; 8]);
    assert_eq!(changed_in(&little, cfg_little()), should_bump(&little));
    assert!(!changed_in(&little, !cfg_little()));
}

#[test]
fn whole_messages_are_judged_one_by_one() {
    let quiet = nlmsg(24, &rtmsg(24));
    let loud = nlmsg(20, &[0u8; 8]);
    let cut = loud[..loud.len() - 1].to_vec();
    for a in [&quiet, &loud] {
        for b in [&quiet, &loud, &cut, &Vec::new()] {
            let both = [a.as_slice(), b.as_slice()].concat();
            assert_eq!(should_bump(&both), should_bump(a) || should_bump(b));
        }
    }
}

fn cfg_little() -> bool {
    1u16.to_ne_bytes() == [1, 0]
}

#[test]
fn epoch_counts_and_wraps() {
    let mut m = NetMonitor { epoch: u64::MAX, started: false };
    bump(&mut m);
    assert_eq!(m.epoch, 0);
    bump(&mut m);
    bump(&mut m);
    assert_eq!(m.epoch, 2);
    assert!(spawn_monitor(&mut m));
    assert!(!spawn_monitor(&mut m));
    assert_eq!(m.epoch, 2);
}

#[test]
fn brackets_v6_literals() {
    assert_eq!(join_host_port("2606:4700:4700::1111", 443), "[2606:4700:4700::1111]:443");
    assert_eq!(join_host_port("::1", 8443), "[::1]:8443");
    assert_eq!(join_host_port("::", 443), "[::]:443", "all interfaces");
}

#[test]
fn passes_v4_and_domain_through() {
    assert_eq!(join_host_port("1.2.3.4", 443), "1.2.3.4:443");
    assert_eq!(join_host_port("example.com", 443), "example.com:443");
    assert_eq!(join_host_port("0.0.0.0", 1080), "0.0.0.0:1080");
}

#[test]
fn already_bracketed_stays_valid() {
    assert_eq!(join_host_port("[::1]", 443), "[::1]:443");
}

#[test]
fn results_parse_as_socketaddr() {
    for (h, p) in [("2606::1", 443u16), ("::1", 80), ("::", 443), ("1.2.3.4", 8443)] {
        let s = join_host_port(h, p);
        assert!(socket(&s).is_some(), "{s}");
    }
}

#[test]
fn addresses_are_read_exactly() {
    assert_eq!(parse_ip_str("1.2.3.4"), Some(IpAddr::V4([1, 2, 3, 4])));
    assert_eq!(parse_ip_str("01.2.3.4"), None);
    assert_eq!(parse_ip_str("256.0.0.1"), None);
    assert_eq!(parse_ip_str("::ffff:1.2.3.4"), Some(IpAddr::V6([0, 0, 0, 0, 0, 0, 0, 0, 0, 0, 255, 255, 1, 2, 3, 4])));
    assert_eq!(parse_ip_str("1::2::3"), None);
    assert_eq!(parse_ip_str("::1"), Some(IpAddr::V6([0, 0, 0, 0, 0, 0, 0, 0, 0, 0, 0, 0, 0, 0, 0, 1])));
    assert_eq!(socket("1.2.3.4:80"), Some(SocketAddr::V4([1, 2, 3, 4], 80)));
    assert_eq!(socket("1.2.3.4:65536"), None);
    assert_eq!(socket("::1:80"), None);
}

#[test]
fn addresses_are_written_as_read() {
    for s in ["1.2.3.4", "::", "::1", "2001:db8::1", "1:2:3:4:5:6:7:8", "fe80::1:0:0:1", "1:0:0:2::3", "::ffff:1.2.3.4"] {
        let a = parse_ip_str(s).unwrap();
        assert_eq!(mirage::ip::ip_string(&a), s);
        let std: std::string::String = mirage::ip::socket_string(&SocketAddr::new(a, 443));
        assert_eq!(socket(&std), Some(SocketAddr::new(a, 443)));
    }
}

#[test]
fn parses_basic() {
    let n = NodeUri::parse("mirage://pass123@1.2.3.4:443?sni=www.apple.com").unwrap();
    assert_eq!(n.password, "pass123");
    assert_eq!(n.host, "1.2.3.4");
    assert_eq!(n.port, 443);
    assert_eq!(n.sni, "www.apple.com");
}

#[test]
fn percent_decodes_password_and_sni() {
    let n = NodeUri::parse("mirage://p%40ss%3Aw%2Frd@h.example:8443?sni=a%2Db.com").unwrap();
    assert_eq!(n.password, "p@ss:w/rd");
    assert_eq!(n.sni, "a-b.com");
}

#[test]
fn plus_is_literal_not_space() {
    let n = NodeUri::parse("mirage://a+b@h:1?sni=x.com").unwrap();
    assert_eq!(n.password, "a+b");
}

#[test]
fn domain_host_ok() {
    let n = NodeUri::parse("mirage://p@vps.example.com:9443?sni=x.com").unwrap();
    assert_eq!(n.host, "vps.example.com");
    assert_eq!(n.port, 9443);
}

#[test]
fn rejects_malformed() {
    for bad in [
        "http://p@h:1?sni=x",
        "mirage://noatsign",
        "mirage://p@hostonly?sni=x",
        "mirage://p@h:notaport?sni=x",
        "mirage://p@h:0?sni=x",
        "mirage://@h:1?sni=x",
        "mirage://p@h:1",
        "mirage://p@h:1?sni=",
    ] {
        assert!(NodeUri::parse(bad).is_err(), "{bad}");
    }
}

#[test]
fn rejects_bad_percent_escape() {
    assert!(NodeUri::parse("mirage://p%ZZ@h:1?sni=x.com").is_err());
    assert!(NodeUri::parse("mirage://p%4@h:1?sni=x.com").is_err());
}

#[test]
fn tolerates_extra_query_params() {
    let n = NodeUri::parse("mirage://p@h:1?sni=x.com&future=1").unwrap();
    assert_eq!(n.sni, "x.com");
}

#[test]
fn each_node_error_has_its_reason() {
    let cases = [
        ("http://p@h:1?sni=x", UriError::Scheme, "不是 mirage:// 开头的节点 URI"),
        (
            "mirage://noatsign",
            UriError::NoAt,
            "缺少 '@' 分隔符 (格式: mirage://密码@host:port?sni=...)",
        ),
        ("mirage://p@hostonly?sni=x", UriError::NoPort, "缺少端口 (格式: host:port)"),
        ("mirage://p@h:notaport?sni=x", UriError::BadPort("notaport".to_string()), "端口非法: `notaport`"),
        ("mirage://p@h:0?sni=x", UriError::PortZero, "端口不能为 0"),
        ("mirage://@h:1?sni=x", UriError::EmptyPassword, "密码为空"),
        ("mirage://p@:1?sni=x", UriError::EmptyHost, "host 为空"),
        ("mirage://p@h:1", UriError::NoSni, "缺少 sni 参数 (伪装域名, 必须与服务端一致)"),
        ("mirage://p%ZZ@h:1?sni=x.com", UriError::BadEscape("ZZ".to_string()), "非法百分号转义: %ZZ"),
        ("mirage://p%é@h:1?sni=x.com", UriError::BadEscape("é".to_string()), "非法百分号转义: %é"),
        ("mirage://p%4@h:1?sni=x.com", UriError::CutEscape("%4".to_string()), "百分号转义不完整: ...%4"),
        (
            "mirage://%FF@h:1?sni=x.com",
            UriError::NotUtf8("invalid utf-8 sequence of 1 bytes from index 0".to_string()),
            "invalid utf-8 sequence of 1 bytes from index 0",
        ),
        (
            "mirage://p%中@h:1?sni=x.com",
            UriError::NotUtf8("incomplete utf-8 byte sequence from index 0".to_string()),
            "incomplete utf-8 byte sequence from index 0",
        ),
    ];
    for (uri, e, text) in cases {
        assert_eq!(e.message(), text);
        assert_eq!(NodeUri::parse(uri).err(), Some(e), "{uri}");
    }
}

#[test]
fn text_without_escapes_is_kept() {
    assert_eq!(percent_decode("plain-text_1+2").ok().unwrap(), "plain-text_1+2");
    assert_eq!(percent_decode("%E4%B8%AD").ok().unwrap(), "中");
}

#[test]
fn counters_count_by_direction() {
    let mut c = Counters { up: 0, down: u64::MAX, dropped_logs: 0 };
    add_up(&mut c, 7);
    add_down(&mut c, 2);
    assert_eq!((c.up, c.down), (7, 1));
    MonitoredReader::new((), true).count(&mut c, 3);
    MonitoredReader::new((), false).count(&mut c, 4);
    assert_eq!((c.up, c.down, c.dropped_logs), (10, 5, 0));
}

#[test]
fn log_lines_are_kept_in_order() {
    let mut c = Counters { up: 0, down: 0, dropped_logs: 0 };
    let mut w = MemoryWriter::new();
    w.write(&mut c, b"one\n");
    w.write(&mut c, b"  \n");
    w.write(&mut c, b"tw\xFFo");
    assert!(w.keep_next());
    assert!(w.keep_next());
    assert!(!w.keep_next());
    assert_eq!(w.get_logs(), vec!["one\n".to_string(), "tw\u{FFFD}o".to_string()]);
}

#[test]
fn archives_move_up_without_overwriting() {
    let mut exists = vec![false; 11];
    exists[1] = true;
    exists[2] = true;
    let order = shift_order(&exists);
    assert_eq!(order, vec![2, 1]);
}

#[test]
fn log_rotates_at_its_limit() {
    let mut f = RotatingFile { written: 0, rotate_at: 1024 };
    assert!(!f.on_write(1000));
    assert!(f.on_write(24));
    f.on_rotated(RotateOutcome::ReopenFailed);
    assert_eq!(f.written, 1024);
    f.on_rotated(RotateOutcome::Reopened);
    assert_eq!(f.written, 0);
}
