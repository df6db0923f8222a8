use mirage::address::{frame_target, Address, AddressError};
use mirage::handler::{choose_exit, Exit};
use mirage::ip::IpAddr;
use mirage::manager::{build_peer, BuildError, OutboundConfig, OutboundManager};
use mirage::outbound::{resolve, GroupState, OutboundNode};
use mirage::pool::MIN_TARGET_FLOOR;
use mirage::shadowsocks::decode_ss2022_psk;
use mirage::ss_inbound::{open_stream, read_request, stream_subject, Opening};

const PRIVATE: &str = "AQEBAQEBAQEBAQEBAQEBAQEBAQEBAQEBAQEBAQEBAQE=";
const PEER: &str = "AgICAgICAgICAgICAgICAgICAgICAgICAgICAgICAgI=";

fn direct(tag: &str) -> OutboundConfig {
    OutboundConfig::Direct { tag: tag.to_string() }
}

fn block(tag: &str) -> OutboundConfig {
    OutboundConfig::Block { tag: tag.to_string() }
}

fn wireguard(tag: &str, private_key: &str) -> OutboundConfig {
    OutboundConfig::Wireguard {
        tag: tag.to_string(),
        private_key: private_key.to_string(),
        peer_public_key: PEER.to_string(),
        preshared_key: None,
        endpoint: "1.2.3.4:51820".to_string(),
        address: "10.0.0.2".to_string(),
        mtu: 1420,
        persistent_keepalive: None,
        dns: None,
    }
}

fn tunnel(tag: &str, server: &str, underlying: Option<&str>) -> OutboundConfig {
    OutboundConfig::Mirage {
        tag: tag.to_string(),
        server: server.to_string(),
        server_port: 443,
        password: "p".to_string(),
        camouflage_host: "x".to_string(),
        pool_size: 10,
        brutal_rate_mbps: None,
        brutal_base_rtt_ms: None,
        pfs: false,
        underlying: underlying.map(|u| u.to_string()),
    }
}

fn shadowsocks(tag: &str, method: &str, underlying: Option<&str>) -> OutboundConfig {
    OutboundConfig::Shadowsocks {
        tag: tag.to_string(),
        server: "192.0.2.2".to_string(),
        server_port: 8388,
        method: method.to_string(),
        password: "pw".to_string(),
        underlying: underlying.map(|u| u.to_string()),
    }
}

fn names(v: &[&str]) -> Vec<String> {
    v.iter().map(|s| s.to_string()).collect()
}

fn balanced(tag: &str, outbounds: &[&str]) -> OutboundConfig {
    OutboundConfig::LoadBalance { tag: tag.to_string(), outbounds: names(outbounds), interval: 60, url: "u".to_string() }
}

fn built(cfgs: Vec<OutboundConfig>) -> OutboundManager {
    match OutboundManager::new(&cfgs, 0) {
        Ok((m, _)) => m,
        Err(_) => panic!("the outbounds can be built"),
    }
}

fn node_direct(tag: &str) -> OutboundNode {
    OutboundNode::Direct { tag: tag.to_string() }
}

#[test]
fn valid_config_builds_wireguard_node() {
    let m = built(vec![direct("direct"), wireguard("wg", PRIVATE)]);
    let i = m.get("wg").expect("there is a peer");
    assert!(matches!(&m.nodes[i], OutboundNode::Wireguard { .. }));
}

#[test]
fn bad_key_degrades_to_block_never_direct() {
    let m = built(vec![direct("direct"), wireguard("wg", "AAAAAAAAAAAAAAAAAAAAAA==")]);
    let i = m.get("wg").expect("the name is kept");
    match &m.nodes[i] {
        OutboundNode::Block { .. } => {}
        OutboundNode::Direct { .. } => panic!("a tunnel became a direct connection"),
        other => panic!("not refused: {:?}", other.tag()),
    }
}

#[test]
fn each_field_of_a_peer_is_checked() {
    assert!(build_peer(&wireguard("wg", PRIVATE)).is_some());
    assert!(build_peer(&wireguard("wg", "not base64")).is_none());
    let mut c = wireguard("wg", PRIVATE);
    if let OutboundConfig::Wireguard { address, .. } = &mut c {
        *address = "10.0.0.2/32".to_string();
    }
    assert!(build_peer(&c).is_none());
    assert!(build_peer(&direct("d")).is_none());
}

#[test]
fn cyclic_underlying_errs() {
    let cfgs = vec![tunnel("a", "192.0.2.1", Some("b")), tunnel("b", "192.0.2.2", Some("a"))];
    assert!(OutboundManager::new(&cfgs, 0).is_err());
}

#[test]
fn mirage_over_underlying_builds() {
    let m = built(vec![direct("direct"), tunnel("m", "192.0.2.1", Some("direct"))]);
    assert!(m.get("m").is_some());
}

#[test]
fn ss_over_mirage_builds() {
    let m = built(vec![tunnel("m", "192.0.2.1", None), shadowsocks("ss", "aes-256-gcm", Some("m"))]);
    assert!(m.get("ss").is_some());
}

#[test]
fn unknown_cipher_is_refused() {
    let cfgs = vec![direct("direct"), shadowsocks("ss", "aes-256-cfb", None)];
    match OutboundManager::new(&cfgs, 0) {
        Err(BuildError::Cipher(e)) => assert!(e.message().contains("aes-256-cfb")),
        _ => panic!("the cipher is not known"),
    }
}

#[test]
fn address_parse_classifies() {
    assert!(matches!(Address::parse("1.2.3.4:80").unwrap(), Address::Socket(_)));
    assert!(matches!(Address::parse("[2001:db8::1]:443").unwrap(), Address::Socket(_)));
    match Address::parse("example.com:443").unwrap() {
        Address::Domain(h, p) => {
            assert_eq!(h, "example.com");
            assert_eq!(p, 443);
        }
        _ => panic!("a name is expected"),
    }
    assert_eq!(Address::parse("example.com:443").unwrap().host_port(), "example.com:443");
    assert_eq!(Address::parse("[2001:db8::1]:443").unwrap().host_port(), "[2001:db8::1]:443");
    assert!(Address::parse("noport").is_err());
    assert!(Address::parse(":80").is_err());
}

#[test]
fn written_targets_are_read_back() {
    for text in [
        "1.2.3.4:80",
        "255.0.10.1:0",
        "[::]:1",
        "[::1]:65535",
        "[fe80::1%7]:22",
        "[1:0:0:2::3]:5",
        "[1:2:3:4:5:6:7:8]:9",
        "[1:0:3:4:5:6:7:8]:9",
        "[::ffff:1.2.3.4]:80",
        "[2001:db8::a:0:0:b]:443",
        "example.com:443",
        "a:b:1",
    ] {
        assert_eq!(Address::parse(text).unwrap().host_port(), text);
    }
    assert_eq!(Address::parse("[1:0:0:0:0:0:0:0]:5").unwrap().host_port(), "[1::]:5");
}

#[test]
fn each_address_error_has_its_input() {
    assert_eq!(Address::parse("noport").err(), Some(AddressError::NoPort));
    assert_eq!(Address::parse(":80").err(), Some(AddressError::EmptyHost));
    assert_eq!(Address::parse("h:99999").err(), Some(AddressError::BadPort));
    assert_eq!(Address::parse("[nonsense").err(), Some(AddressError::BadV6));
    assert_eq!(Address::parse("h:7").unwrap().port(), 7);
}

#[test]
fn targets_are_framed_with_their_length() {
    assert_eq!(frame_target("ab:1"), vec![0, 4, 97, 98, 58, 49]);
}

#[test]
fn load_balance_round_robins_healthy() {
    let nodes = vec![
        node_direct("a"),
        node_direct("b"),
        node_direct("c"),
        OutboundNode::LoadBalance { tag: "lb".to_string(), children: vec![0, 1, 2] },
    ];
    let mut st = GroupState { current: vec![None; 4], next: vec![0; 4] };
    let seq: Vec<String> = (0..6).map(|_| nodes[resolve(&nodes, &mut st, 3)].tag().to_string()).collect();
    assert_eq!(seq, vec!["a", "b", "c", "a", "b", "c"]);
}

#[test]
fn load_balance_skips_unhealthy() {
    let nodes = vec![node_direct("only"), OutboundNode::LoadBalance { tag: "lb".to_string(), children: vec![0] }];
    let mut st = GroupState { current: vec![None; 2], next: vec![0; 2] };
    assert_eq!(nodes[resolve(&nodes, &mut st, 1)].tag(), "only");
}

#[test]
fn balancing_passes_over_a_failing_tunnel() {
    let mut m = built(vec![tunnel("m", "192.0.2.1", None), direct("d"), balanced("lb", &["m", "d"])]);
    let i = m.get("lb").unwrap();
    let failing = m.get("m").unwrap();
    if let OutboundNode::Mirage { pool, .. } = &mut m.nodes[failing] {
        for _ in 0..3 {
            pool.stats.record_failure();
        }
    }
    assert!(!m.is_healthy(failing));
    for _ in 0..4 {
        let l = m.resolve_leaf(i);
        assert_eq!(m.nodes[l].tag(), "d");
    }
}

#[test]
fn load_balance_builds_and_checks() {
    let cfgs = vec![direct("d1"), direct("d2"), balanced("lb", &["d1", "d2"])];
    let m = built(cfgs);
    let i = m.get("lb").unwrap();
    assert!(matches!(&m.nodes[i], OutboundNode::LoadBalance { .. }));
}

#[test]
fn unresolved_outbound_group_errs_not_panics() {
    let cfgs =
        vec![direct("direct"), OutboundConfig::Selector { tag: "grp".to_string(), outbounds: names(&["ghost"]) }];
    match OutboundManager::new(&cfgs, 0) {
        Err(BuildError::Unresolved(v)) => assert_eq!(v, vec![1]),
        _ => panic!("the group has no member"),
    }
}

#[test]
fn fallback_takes_the_first_that_works() {
    let cfgs = vec![
        tunnel("m", "192.0.2.1", None),
        direct("d"),
        OutboundConfig::Fallback {
            tag: "f".to_string(),
            outbounds: names(&["m", "d"]),
            interval: 30,
            url: "http://x".to_string(),
        },
    ];
    let mut m = built(cfgs);
    let f = m.get("f").unwrap();
    let l = m.resolve_leaf(f);
    assert_eq!(m.nodes[l].tag(), "m");
    let i = m.get("m").unwrap();
    if let OutboundNode::Mirage { pool, .. } = &mut m.nodes[i] {
        for _ in 0..3 {
            pool.stats.record_failure();
        }
    }
    let l = m.resolve_leaf(f);
    assert_eq!(m.nodes[l].tag(), "d");
}

#[test]
fn the_fastest_member_is_taken() {
    let cfgs = vec![
        tunnel("slow", "192.0.2.1", None),
        tunnel("fast", "192.0.2.2", None),
        OutboundConfig::Urltest {
            tag: "u".to_string(),
            outbounds: names(&["slow", "fast"]),
            interval: 30,
            tolerance: 50,
            url: "http://x".to_string(),
            test_type: "http".to_string(),
        },
    ];
    let mut m = built(cfgs);
    let u = m.get("u").unwrap();
    for (name, ms) in [("slow", 300u64), ("fast", 20)] {
        let i = m.get(name).unwrap();
        if let OutboundNode::Mirage { pool, .. } = &mut m.nodes[i] {
            pool.stats.record_latency(ms, 0);
        }
    }
    let l = m.resolve_leaf(u);
    assert_eq!(m.nodes[l].tag(), "fast");
    assert_eq!(m.latency_http_ms(u), Some(20));
}

#[test]
fn a_selector_uses_what_was_selected() {
    let mut m = built(vec![
        direct("a"),
        block("b"),
        OutboundConfig::Selector { tag: "s".to_string(), outbounds: names(&["a", "b"]) },
    ]);
    let s = m.get("s").unwrap();
    assert_eq!(m.resolve_leaf(s), m.get("a").unwrap());
    let b = m.get("b").unwrap();
    m.select(s, b);
    assert_eq!(m.resolve_leaf(s), b);
}

#[test]
fn exits_follow_the_outbound() {
    let mut m = built(vec![direct("d"), block("b"), tunnel("m", "192.0.2.1", None)]);
    let place = m.get("m").unwrap();
    assert!(matches!(choose_exit(&mut m, "d"), Some(Exit::Direct)));
    assert!(matches!(choose_exit(&mut m, "b"), Some(Exit::Refused)));
    assert!(matches!(choose_exit(&mut m, "m"), Some(Exit::Tunnel(i)) if i == place));
    assert!(choose_exit(&mut m, "ghost").is_none());
}

#[test]
fn connect_block_errors() {
    let mut m = built(vec![direct("direct"), block("block")]);
    let i = m.get("block").unwrap();
    let t = Address::parse("example.com:80").unwrap();
    assert!(matches!(open_stream(&mut m, i, &t), Opening::Refused));
    let d = m.get("direct").unwrap();
    assert!(matches!(open_stream(&mut m, d, &t), Opening::Direct));
}

#[test]
fn streams_name_their_target() {
    let mut m = built(vec![
        tunnel("m", "192.0.2.1", None),
        wireguard("wg", PRIVATE),
        shadowsocks("ss", "aes-256-gcm", Some("m")),
        shadowsocks("bad", "2022-blake3-aes-128-gcm", None),
    ]);
    let t = Address::parse("example.com:80").unwrap();
    let i = m.get("m").unwrap();
    match open_stream(&mut m, i, &t) {
        Opening::Tunnel(at, first) => {
            assert_eq!(at, i);
            assert_eq!(first, frame_target("example.com:80"));
        }
        _ => panic!("a tunnel is expected"),
    }
    let w = m.get("wg").unwrap();
    assert!(matches!(open_stream(&mut m, w, &t), Opening::Wireguard(at) if at == w));
    let s = m.get("ss").unwrap();
    assert!(matches!(open_stream(&mut m, s, &t), Opening::Shadowsocks(at, Some(b)) if at == s && b == i));
    let b = m.get("bad").unwrap();
    match open_stream(&mut m, b, &t) {
        Opening::BadKey(e) => assert_eq!(Err(e.message()), decode_ss2022_psk("pw", 16).map_err(|e| e.message())),
        _ => panic!("the key is no key"),
    }
}

#[test]
fn wrong_keys_are_told_apart() {
    let t = Address::parse("example.com:80").unwrap();
    for (password, text) in [
        ("!", "SIP022 的 password 必须是 base64 编码的密钥: Invalid symbol 33, offset 0."),
        (
            "AAAA",
            "SIP022 密钥长度不对: base64 解码后 3 字节, 该加密方式要求 16 字节。(可用 `openssl rand -base64 16` 生成)",
        ),
    ] {
        let mut c = shadowsocks("ss", "2022-blake3-aes-128-gcm", None);
        if let OutboundConfig::Shadowsocks { password: p, .. } = &mut c {
            *p = password.to_string();
        }
        let mut m = built(vec![c]);
        let i = m.get("ss").unwrap();
        match open_stream(&mut m, i, &t) {
            Opening::BadKey(e) => assert_eq!(e.message(), text),
            _ => panic!("the key is wrong"),
        }
    }
}

#[test]
fn pools_start_empty() {
    let cfgs = vec![tunnel("m", "192.0.2.1", None)];
    let m = match OutboundManager::new(&cfgs, 4321) {
        Ok((m, _)) => m,
        Err(_) => panic!("the outbounds can be built"),
    };
    match &m.nodes[m.get("m").unwrap()] {
        OutboundNode::Mirage { pool, cfg, .. } => {
            assert_eq!(pool.target, cfg.pool_size.min(MIN_TARGET_FLOOR));
            assert_eq!((pool.queue.len(), pool.in_flight, pool.next_build_ms), (0, 0, 4321));
            assert_eq!(
                (pool.metrics.wait_events, pool.metrics.total_gets, pool.metrics.expired_unused),
                (0, 0, 0)
            );
            assert_eq!(pool.stats.last_sample_time, None);
        }
        _ => panic!("a tunnel is configured"),
    }
}

#[test]
fn requests_keep_what_follows_the_address() {
    match read_request(&[1, 2, 3, 4, 5], "example.com:443", 3) {
        Ok(q) => {
            assert_eq!(q.initial, vec![4, 5]);
            let (name, ip, port) = stream_subject(&q.target);
            assert_eq!((name.as_deref(), ip, port), (Some("example.com"), None, 443));
        }
        Err(_) => panic!("the target is right"),
    }
    assert!(read_request(&[], "noport", 0).is_err());
    let (name, ip, port) = stream_subject(&Address::parse("1.2.3.4:80").unwrap());
    assert_eq!((name, ip, port), (None, Some(IpAddr::V4([1, 2, 3, 4])), 80));
}
