use mirage::ip::{IpAddr, SocketAddr};
use mirage::resolver::{
    build_dns_query, merge_answers, order_ips, parse_answer_ips, set_tcp_resolver, split_host_port, Dial, DialPlan,
    DialStep, Resolver,
};
use mirage::wg_dns::{build_query, parse_a_records, skip_name, DnsError, Lookup, TunnelDns, TTL_MAX, TTL_MIN};

fn resp_with_a(id: u16, ips: &[[u8; 4]], ttl: u32) -> Vec<u8> {
    let mut r = Vec::new();
    r.extend_from_slice(&id.to_be_bytes());
    r.extend_from_slice(&[0x81, 0x80]);
    r.extend_from_slice(&[0x00, 0x01]);
    r.extend_from_slice(&(ips.len() as u16).to_be_bytes());
    r.extend_from_slice(&[0, 0, 0, 0]);
    for l in ["example", "com"] {
        r.push(l.len() as u8);
        r.extend_from_slice(l.as_bytes());
    }
    r.extend_from_slice(&[0, 0x00, 0x01, 0x00, 0x01]);
    for ip in ips {
        r.extend_from_slice(&[0xC0, 0x0C]);
        r.extend_from_slice(&[0x00, 0x01, 0x00, 0x01]);
        r.extend_from_slice(&ttl.to_be_bytes());
        r.extend_from_slice(&[0x00, 0x04]);
        r.extend_from_slice(ip);
    }
    r
}

fn v4(a: u8, b: u8, c: u8, d: u8) -> IpAddr {
    IpAddr::V4([a, b, c, d])
}

fn v6_loopback() -> IpAddr {
    IpAddr::V6([0, 0, 0, 0, 0, 0, 0, 0, 0, 0, 0, 0, 0, 0, 0, 1])
}

#[test]
fn build_query_shape() {
    let mut tx = 7u16;
    let q = build_dns_query(&mut tx, "example.com", 1).unwrap();
    assert_eq!(&q[0..2], &[0, 7]);
    assert_eq!(tx, 8);
    assert_eq!(&q[2..4], &[0x01, 0x00]);
    assert_eq!(&q[4..6], &[0x00, 0x01]);
    assert_eq!(q[12], 7);
    assert_eq!(&q[13..20], b"example");
    assert_eq!(q[20], 3);
    assert_eq!(&q[21..24], b"com");
    assert_eq!(q[24], 0);
    assert_eq!(&q[25..29], &[0x00, 0x01, 0x00, 0x01]);
    assert!(build_dns_query(&mut tx, "", 1).is_none());
    assert!(build_dns_query(&mut tx, &"x".repeat(64), 1).is_none());
}

#[test]
fn parse_answers_a_and_aaaa() {
    let mut r = vec![0x12, 0x34, 0x81, 0x80, 0, 1, 0, 2, 0, 0, 0, 0];
    r.push(1);
    r.push(b'a');
    r.push(3);
    r.extend_from_slice(b"com");
    r.push(0);
    r.extend_from_slice(&[0, 1, 0, 1]);
    r.extend_from_slice(&[0xC0, 0x0C, 0x00, 0x01, 0x00, 0x01, 0, 0, 1, 44, 0, 4, 1, 2, 3, 4]);
    r.extend_from_slice(&[0xC0, 0x0C, 0x00, 0x1C, 0x00, 0x01, 0, 0, 1, 44, 0, 16]);
    r.extend_from_slice(&[0, 0, 0, 0, 0, 0, 0, 0, 0, 0, 0, 0, 0, 0, 0, 1]);
    let ips = parse_answer_ips(&r, 0x1234);
    assert_eq!(ips.len(), 2);
    assert_eq!(ips[0], v4(1, 2, 3, 4));
    assert_eq!(ips[1], v6_loopback());
}

#[test]
fn parse_rejects_txid_mismatch() {
    let mut r = vec![0x12, 0x34, 0x81, 0x80, 0, 1, 0, 1, 0, 0, 0, 0];
    r.push(1);
    r.push(b'a');
    r.push(3);
    r.extend_from_slice(b"com");
    r.push(0);
    r.extend_from_slice(&[0, 1, 0, 1]);
    r.extend_from_slice(&[0xC0, 0x0C, 0x00, 0x01, 0x00, 0x01, 0, 0, 1, 44, 0, 4, 1, 2, 3, 4]);
    assert!(parse_answer_ips(&r, 0x9999).is_empty());
    assert_eq!(parse_answer_ips(&r, 0x1234).len(), 1);
}

#[test]
fn parse_rejects_non_response_qr() {
    let mut r = vec![0x12, 0x34, 0x01, 0x00, 0, 1, 0, 1, 0, 0, 0, 0];
    r.push(1);
    r.push(b'a');
    r.push(3);
    r.extend_from_slice(b"com");
    r.push(0);
    r.extend_from_slice(&[0, 1, 0, 1]);
    r.extend_from_slice(&[0xC0, 0x0C, 0x00, 0x01, 0x00, 0x01, 0, 0, 1, 44, 0, 4, 1, 2, 3, 4]);
    assert!(parse_answer_ips(&r, 0x1234).is_empty());
}

#[test]
fn parse_ignores_cname_and_truncation() {
    let mut r = vec![0, 0, 0x81, 0x80, 0, 0, 0, 1, 0, 0, 0, 0];
    r.extend_from_slice(&[0xC0, 0x0C, 0x00, 0x01, 0x00, 0x01, 0, 0, 1, 44, 0, 4, 1, 2]);
    assert!(parse_answer_ips(&r, 0).is_empty());
}

#[test]
fn addresses_of_version_four_come_first() {
    let got = order_ips(&vec![v6_loopback(), v4(9, 9, 9, 9), v4(1, 1, 1, 1)]);
    assert_eq!(got, vec![v4(9, 9, 9, 9), v4(1, 1, 1, 1), v6_loopback()]);
}

#[test]
fn one_answer_is_enough() {
    let a: Result<Vec<IpAddr>, u8> = Ok(vec![v4(1, 2, 3, 4)]);
    assert_eq!(merge_answers(a, Err(2)), Ok(vec![v4(1, 2, 3, 4)]));
    assert_eq!(merge_answers(Err(1u8), Err(2)), Err(Some(2)));
    assert_eq!(merge_answers(Err(1u8), Ok(Vec::new())), Err(Some(1)));
    assert_eq!(merge_answers::<u8>(Ok(Vec::new()), Ok(Vec::new())), Err(None));
}

#[test]
fn targets_are_planned() {
    let mut r = Resolver::new();
    assert!(set_tcp_resolver(&mut r, SocketAddr::V4([1, 1, 1, 1], 53)));
    assert!(!set_tcp_resolver(&mut r, SocketAddr::V4([8, 8, 8, 8], 53)));
    assert_eq!(split_host_port("[::1]:80"), Some(("::1".to_string(), 80)));
    assert_eq!(split_host_port("nothing"), None);
    assert!(matches!(r.plan("nothing", 0), DialPlan::BadTarget));
    assert!(matches!(r.plan("1.2.3.4:80", 0), DialPlan::Address(a) if a == SocketAddr::V4([1, 2, 3, 4], 80)));
    assert!(matches!(r.plan("h.example:80", 0), DialPlan::Resolve(h, 80) if h == "h.example"));
    r.resolved("h.example".to_string(), &vec![v6_loopback(), v4(5, 6, 7, 8)], 0);
    assert!(matches!(r.plan("h.example:80", 59_999), DialPlan::Known(v, 80) if v[0] == v4(5, 6, 7, 8)));
    assert!(matches!(r.plan("h.example:80", 60_000), DialPlan::Resolve(_, 80)));
    assert!(r.resolved("none".to_string(), &Vec::new(), 0).is_none());
}

#[test]
fn addresses_are_tried_in_turn() {
    let mut d: Dial<&str> = Dial::new(vec![v4(1, 1, 1, 1), v4(2, 2, 2, 2)], 443);
    assert!(matches!(d.step(), DialStep::Try(a) if a == SocketAddr::V4([1, 1, 1, 1], 443)));
    d.failed("first");
    assert!(matches!(d.step(), DialStep::Try(a) if a == SocketAddr::V4([2, 2, 2, 2], 443)));
    d.failed("second");
    assert!(matches!(d.step(), DialStep::Failed(Some("second"))));
}

#[test]
fn parses_a_records_with_compression_pointer() {
    let ips = [[1, 2, 3, 4], [5, 6, 7, 8]];
    let r = resp_with_a(0x1234, &ips, 60);
    let (got, ttl) = parse_a_records(&r, 0x1234).unwrap();
    assert_eq!(got, ips);
    assert_eq!(ttl, 60);
}

#[test]
fn rejects_mismatched_id() {
    let r = resp_with_a(0x1111, &[[1, 1, 1, 1]], 60);
    let e = parse_a_records(&r, 0x2222).unwrap_err().message();
    assert!(e.contains("ID 不匹配"), "{e}");
}

#[test]
fn rejects_nxdomain_and_servfail() {
    let mut r = resp_with_a(1, &[[1, 1, 1, 1]], 60);
    r[3] = (r[3] & 0xF0) | 3;
    assert!(parse_a_records(&r, 1).unwrap_err().message().contains("NXDOMAIN"));
    r[3] = (r[3] & 0xF0) | 2;
    assert!(parse_a_records(&r, 1).unwrap_err().message().contains("RCODE=2"));
}

#[test]
fn compression_pointer_loop_is_rejected_not_hung() {
    let mut r = vec![0u8; 12];
    r[0..2].copy_from_slice(&1u16.to_be_bytes());
    r[2] = 0x81;
    r[3] = 0x80;
    r[4..6].copy_from_slice(&1u16.to_be_bytes());
    r[6..8].copy_from_slice(&1u16.to_be_bytes());
    r.extend_from_slice(&[0xC0, 0x0C]);
    r.extend_from_slice(&[0x00, 0x01, 0x00, 0x01, 0, 0, 0, 60, 0x00, 0x04, 1, 2, 3, 4]);
    let _ = parse_a_records(&r, 1);
}

#[test]
fn truncated_message_is_rejected() {
    assert!(parse_a_records(&[0u8; 5], 1).is_err());
    let r = resp_with_a(1, &[[1, 1, 1, 1]], 60);
    assert!(parse_a_records(&r[..r.len() - 2], 1).is_err());
}

#[test]
fn query_roundtrips_name() {
    let q = build_query(0xABCD, "example.com").unwrap();
    assert_eq!(&q[0..2], &0xABCDu16.to_be_bytes());
    assert_eq!(u16::from_be_bytes([q[4], q[5]]), 1);
    assert!(q.windows(7).any(|w| w == b"example"));
    assert_eq!(&q[q.len() - 4..], &[0x00, 0x01, 0x00, 0x01]);
}

#[test]
fn ttl_is_clamped() {
    let r = resp_with_a(1, &[[1, 1, 1, 1]], 0);
    assert_eq!(parse_a_records(&r, 1).unwrap().1, TTL_MIN);
    let r = resp_with_a(1, &[[1, 1, 1, 1]], 999_999);
    assert_eq!(parse_a_records(&r, 1).unwrap().1, TTL_MAX);
}

#[test]
fn each_answer_error_has_its_input() {
    assert_eq!(parse_a_records(&[0u8; 5], 1).err(), Some(DnsError::TooShort));
    let good = resp_with_a(1, &[[1, 1, 1, 1]], 60);
    let mut query = good.clone();
    query[2] = 0x01;
    assert_eq!(parse_a_records(&query, 1).err(), Some(DnsError::NotResponse));
    assert_eq!(parse_a_records(&resp_with_a(1, &[], 60), 1).err(), Some(DnsError::NoRecords));
    assert_eq!(parse_a_records(&good[..good.len() - 2], 1).err(), Some(DnsError::DataTruncated));
    assert_eq!(parse_a_records(&good[..good.len() - 8], 1).err(), Some(DnsError::AnswerTruncated));
    assert_eq!(parse_a_records(&good[..14], 1).err(), Some(DnsError::Truncated));
    assert_eq!(skip_name(&[0xC0], 0).err(), Some(DnsError::PointerTruncated));
    let name = format!("ok.{}.{}", "x".repeat(64), "y".repeat(64));
    assert_eq!(build_query(1, &name).err(), Some(DnsError::LabelTooLong("x".repeat(64))));
    assert_eq!(
        build_query(1, &name).unwrap_err().message(),
        format!("域名标签超过 63 字节: {}", "x".repeat(64))
    );
    assert_eq!(DnsError::Rcode(5).message(), "DNS 服务端返回错误 RCODE=5");
    for e in [DnsError::Truncated, DnsError::NoRecords, DnsError::Rcode(5)] {
        assert!(!e.message().is_empty());
    }
}

#[test]
fn names_in_the_tunnel_are_remembered() {
    let mut d = TunnelDns::new(v4(10, 0, 0, 1));
    assert_eq!(d.server, SocketAddr::V4([10, 0, 0, 1], 53));
    let name = "example.com".to_string();
    assert!(matches!(d.lookup(&"1.2.3.4".to_string(), 80, 1, 0), Lookup::Known(a) if a == SocketAddr::V4([1, 2, 3, 4], 80)));
    match d.lookup(&name, 80, 7, 0) {
        Lookup::Ask(q) => assert_eq!(q, build_query(7, "example.com").unwrap()),
        _ => panic!("nothing is known yet"),
    }
    match d.ask(&name, 80, 0) {
        (id, Lookup::Ask(q)) => assert_eq!(q, build_query(id, "example.com").unwrap()),
        _ => panic!("nothing is known yet"),
    }
    let a = d.on_answer(name.clone(), 80, &resp_with_a(7, &[[9, 9, 9, 9]], 60), 7, 0);
    assert_eq!(a, Ok(SocketAddr::V4([9, 9, 9, 9], 80)));
    assert_eq!(d.cached(&name, 59_999), Some([9, 9, 9, 9]));
    assert_eq!(d.cached(&name, 60_000), None);
    assert!(matches!(d.lookup(&"x".repeat(64), 80, 1, 0), Lookup::Failed(DnsError::LabelTooLong(l)) if l == "x".repeat(64)));
}

#[test]
fn any_bytes_are_parsed_without_failing() {
    let mut x: u32 = 12345;
    for round in 0..2000u32 {
        let len = (round % 120) as usize;
        let mut msg = vec![0x12, 0x34, 0x81, 0x80, 0, (round % 3) as u8, 0, (round % 8) as u8, 0, 0, 0, 0];
        for _ in 0..len {
            x = x.wrapping_mul(1664525).wrapping_add(1013904223);
            msg.push((x >> 24) as u8);
        }
        let _ = parse_answer_ips(&msg, 0x1234);
        let _ = parse_a_records(&msg, 0x1234);
        let _ = parse_answer_ips(&msg[12..], 0x1234);
    }
}
