use mirage::frames::take_frames;
use mirage::handler::Exit;
use mirage::ip::{IpAddr, SocketAddr};
use mirage::outbound::OutboundNode;
use mirage::transparent_udp::{
    direct_target, flow_subject, frame_udp_domain, parse_udp_frame_payload, plan_flow, uplink_frame, Arrival, Downlink,
    FlowKey, FlowPlan, FlowSink, Flows, V4Addr,
};
use mirage::udp_mux::{
    coalesce, frame_mux_addr, frame_mux_domain, frame_mux_ipv4, parse_mux_frame, parse_mux_uplink, set_udp_mux,
    take_mux_datagrams,
    udp_mux_enabled, MuxRegistry, MuxSet, MuxSettings, MuxTunnel,
};
use mirage::udp_relay::{
    associate_reply, datagram_subject, encode_socks_udp_addr, parse_socks_udp_addr, sink_for, unwrap_frames, wrap_reply,
    Associate, Sending, Sink, UdpTarget,
};

fn v6_doc() -> [u8; 16] {
    [0x20, 0x01, 0x0d, 0xb8, 0, 0, 0, 0, 0, 0, 0, 0, 0, 0, 0, 1]
}

#[test]
fn frame_domain_bytes() {
    let f = frame_udp_domain("ab.com", 443, b"hi");
    assert_eq!(&f[0..2], &[0x00, 0x0C]);
    assert_eq!(f[2], 0x03);
    assert_eq!(f[3], 6);
    assert_eq!(&f[4..10], b"ab.com");
    assert_eq!(&f[10..12], &[0x01, 0xBB]);
    assert_eq!(&f[12..14], b"hi");
}

#[test]
fn parse_ipv4_reply_frame() {
    let mut buf = vec![0x00, 0x0B, 0x01, 1, 2, 3, 4, 0x00, 0x35];
    buf.extend_from_slice(b"resp");
    let (payload, consumed) = parse_udp_frame_payload(&buf).unwrap();
    assert_eq!(payload, b"resp");
    assert_eq!(consumed, buf.len());
}

#[test]
fn parse_domain_frame_roundtrip() {
    let f = frame_udp_domain("x.io", 8080, b"PING");
    let (payload, consumed) = parse_udp_frame_payload(&f).unwrap();
    assert_eq!(payload, b"PING");
    assert_eq!(consumed, f.len());
}

#[test]
fn parse_incomplete_returns_none() {
    assert!(parse_udp_frame_payload(&[0x00]).is_none());
    assert!(parse_udp_frame_payload(&[0x00, 0x0B, 0x01, 1, 2]).is_none());
}

#[test]
fn parse_malformed_consumes_frame_empty_payload() {
    let (payload, consumed) = parse_udp_frame_payload(&[0x00, 0x03, 0x09, 0xAA, 0xBB]).unwrap();
    assert!(payload.is_empty());
    assert_eq!(consumed, 5);
}

#[test]
fn parse_two_frames_in_buffer() {
    let mut buf = frame_udp_domain("a.b", 1, b"one");
    buf.extend(frame_udp_domain("c.d", 2, b"two"));
    let (p1, c1) = parse_udp_frame_payload(&buf).unwrap();
    assert_eq!(p1, b"one");
    let (p2, _) = parse_udp_frame_payload(&buf[c1..]).unwrap();
    assert_eq!(p2, b"two");
}

#[test]
fn parse_mux_uplink_domain() {
    let f = frame_mux_domain(5, "ex.com", 443, b"hi").unwrap();
    let (consumed, uf) = parse_mux_uplink(&f).unwrap();
    let uf = uf.unwrap();
    assert_eq!(consumed, f.len());
    assert_eq!(uf.sid, 5);
    assert_eq!(uf.target, "ex.com");
    assert_eq!(uf.port, 443);
    assert_eq!(uf.payload, b"hi");
}

#[test]
fn parse_mux_uplink_ipv4() {
    let f = frame_mux_ipv4(9, &[8, 8, 8, 8], 53, b"dns").unwrap();
    let (_, uf) = parse_mux_uplink(&f).unwrap();
    let uf = uf.unwrap();
    assert_eq!(uf.sid, 9);
    assert_eq!(uf.target, "8.8.8.8");
    assert_eq!(uf.port, 53);
    assert_eq!(uf.payload, b"dns");
}

#[test]
fn parse_mux_uplink_malformed_skips() {
    let buf = [0x00, 0x05, 0x01, 0x02, 0x03, 0x04, 0x09];
    let (consumed, uf) = parse_mux_uplink(&buf).unwrap();
    assert_eq!(consumed, 7);
    assert!(uf.is_none());
}

#[test]
fn datagrams_of_a_shared_tunnel_are_taken_out() {
    let mut all = frame_mux_domain(7, "example.com", 53, b"ask").unwrap();
    all.extend_from_slice(&[0, 3, 1, 2, 3]);
    all.extend(frame_mux_domain(8, "example.org", 443, b"").unwrap());
    let next = frame_mux_domain(9, "x", 1, b"later").unwrap();
    all.extend_from_slice(&next[..4]);
    let mut acc = Vec::new();
    assert!(take_mux_datagrams(&mut acc, &all[..5]).is_empty());
    let found = take_mux_datagrams(&mut acc, &all[5..]);
    assert_eq!(found.len(), 2);
    assert_eq!((found[0].sid, found[0].target.as_str(), found[0].port), (7, "example.com", 53));
    assert_eq!(found[0].payload, b"ask");
    assert_eq!((found[1].sid, found[1].target.as_str(), found[1].port), (8, "example.org", 443));
    assert_eq!(acc, &next[..4]);
    let found = take_mux_datagrams(&mut acc, &next[4..]);
    assert_eq!((found.len(), found[0].sid, found[0].payload.as_slice()), (1, 9, &b"later"[..]));
    assert!(acc.is_empty());
}

#[test]
fn parse_mux_uplink_incomplete_none() {
    let f = frame_mux_ipv4(1, &[1, 1, 1, 1], 53, b"xx").unwrap();
    assert!(parse_mux_uplink(&f[..f.len() - 1]).is_none());
}

#[test]
fn client_roundtrip_demux_by_sid() {
    let mut t = MuxTunnel::new();
    let sid = t.alloc_sid();
    let client = SocketAddr::V4([127, 0, 0, 1], 4000);
    t.register(sid, 11, client);
    let reply = frame_mux_addr(sid, SocketAddr::V4([127, 0, 0, 1], 9), b"PING").unwrap();
    assert!(t.on_chunk(&reply[..3]).is_empty());
    let d = t.on_chunk(&reply[3..]);
    assert_eq!(d.len(), 1);
    assert_eq!((d[0].entry.reply, d[0].entry.client), (11, client));
    assert_eq!(d[0].payload, b"PING");
    t.unregister(sid);
    assert!(t.on_chunk(&reply).is_empty());
    assert!(t.is_alive());
    t.end();
    assert!(!t.is_alive());
}

#[test]
fn frame_mux_domain_over_255_returns_none() {
    let long = "a".repeat(256);
    assert!(frame_mux_domain(1, &long, 443, b"x").is_none());
    let ok = "b".repeat(255);
    assert!(frame_mux_domain(1, &ok, 443, b"x").is_some());
}

#[test]
fn frame_mux_domain_roundtrip() {
    let f = frame_mux_domain(0xDEADBEEF, "ex.com", 443, b"hello").unwrap();
    let body_len = 4 + 1 + 1 + 6 + 2 + 5;
    assert_eq!(u16::from_be_bytes([f[0], f[1]]) as usize, body_len);
    assert_eq!(f.len(), 2 + body_len);
    let (sid, payload, consumed) = parse_mux_frame(&f).unwrap();
    assert_eq!(sid, 0xDEADBEEF);
    assert_eq!(payload, b"hello");
    assert_eq!(consumed, f.len());
}

#[test]
fn frame_mux_ipv4_roundtrip() {
    let f = frame_mux_ipv4(7, &[8, 8, 8, 8], 53, b"dns").unwrap();
    let body_len = 4 + 1 + 4 + 2 + 3;
    assert_eq!(u16::from_be_bytes([f[0], f[1]]) as usize, body_len);
    assert_eq!(f[6], 0x01);
    let (sid, payload, consumed) = parse_mux_frame(&f).unwrap();
    assert_eq!(sid, 7);
    assert_eq!(payload, b"dns");
    assert_eq!(consumed, f.len());
}

#[test]
fn frame_mux_addr_v4_roundtrip() {
    let addr = SocketAddr::V4([1, 2, 3, 4], 9999);
    let f = frame_mux_addr(42, addr, b"reply").unwrap();
    assert_eq!(f[6], 0x01);
    let (sid, payload, consumed) = parse_mux_frame(&f).unwrap();
    assert_eq!(sid, 42);
    assert_eq!(payload, b"reply");
    assert_eq!(consumed, f.len());
}

#[test]
fn frame_mux_addr_v6_roundtrip() {
    let addr = SocketAddr::V6(v6_doc(), 443, 0);
    let f = frame_mux_addr(99, addr, b"quic").unwrap();
    assert_eq!(f[6], 0x04);
    let (sid, payload, consumed) = parse_mux_frame(&f).unwrap();
    assert_eq!(sid, 99);
    assert_eq!(payload, b"quic");
    assert_eq!(consumed, f.len());
}

#[test]
fn multi_frame_coalesced_demux() {
    let mut buf = Vec::new();
    buf.extend_from_slice(&frame_mux_ipv4(1, &[1, 1, 1, 1], 53, b"a").unwrap());
    buf.extend_from_slice(&frame_mux_domain(2, "b.io", 80, b"bb").unwrap());
    buf.extend_from_slice(&frame_mux_ipv4(3, &[2, 2, 2, 2], 443, b"ccc").unwrap());
    let mut acc = &buf[..];
    let mut got = Vec::new();
    while let Some((sid, payload, consumed)) = parse_mux_frame(acc) {
        got.push((sid, payload));
        acc = &acc[consumed..];
    }
    assert_eq!(got, vec![(1u32, b"a".to_vec()), (2u32, b"bb".to_vec()), (3u32, b"ccc".to_vec())]);
}

#[test]
fn incomplete_frame_returns_none() {
    let f = frame_mux_ipv4(1, &[1, 1, 1, 1], 53, b"payload").unwrap();
    assert!(parse_mux_frame(&f[..f.len() - 2]).is_none());
    assert!(parse_mux_frame(&[0x00]).is_none());
}

#[test]
fn malformed_inner_consumes_frame_empty_payload() {
    let buf = [0x00, 0x05, 0x01, 0x02, 0x03, 0x04, 0x09];
    let (sid, payload, consumed) = parse_mux_frame(&buf).unwrap();
    assert_eq!(sid, 0x01020304);
    assert!(payload.is_empty());
    assert_eq!(consumed, 7);
}

#[test]
fn frame_too_short_for_sid_consumes_empty() {
    let buf = [0x00, 0x02, 0xAA, 0xBB];
    let (sid, payload, consumed) = parse_mux_frame(&buf).unwrap();
    assert_eq!(sid, 0);
    assert!(payload.is_empty());
    assert_eq!(consumed, 4);
}

#[test]
fn frame_len_three_no_panic() {
    let buf = [0x00, 0x03, 0xAA, 0xBB, 0xCC];
    let (sid, payload, consumed) = parse_mux_frame(&buf).unwrap();
    assert_eq!(sid, 0);
    assert!(payload.is_empty());
    assert_eq!(consumed, 5);
}

#[test]
fn parse_v4_addr() {
    let b = [0x01, 1, 2, 3, 4, 0x01, 0xBB, b'h', b'i'];
    let (t, off) = parse_socks_udp_addr(&b).unwrap();
    assert_eq!(off, 7);
    assert!(matches!(t, UdpTarget::Ip(sa) if sa == SocketAddr::V4([1, 2, 3, 4], 443)));
    assert_eq!(&b[off..], b"hi");
}

#[test]
fn parse_domain_addr() {
    let b = [0x03, 3, b'a', b'b', b'c', 0x00, 0x50, b'x'];
    let (t, off) = parse_socks_udp_addr(&b).unwrap();
    assert_eq!(off, 7);
    match t {
        UdpTarget::Domain(h, p) => {
            assert_eq!(h, "abc");
            assert_eq!(p, 80);
        }
        _ => panic!("expected domain"),
    }
}

#[test]
fn parse_truncated_returns_none() {
    assert!(parse_socks_udp_addr(&[]).is_none());
    assert!(parse_socks_udp_addr(&[0x01, 1, 2]).is_none());
    assert!(parse_socks_udp_addr(&[0x03, 5, b'a']).is_none());
    assert!(parse_socks_udp_addr(&[0x02, 0, 0]).is_none());
}

#[test]
fn encode_v4_roundtrip() {
    let enc = encode_socks_udp_addr(SocketAddr::V4([9, 8, 7, 6], 1234));
    assert_eq!(enc, vec![0x01, 9, 8, 7, 6, 0x04, 0xD2]);
}

#[test]
fn datagrams_of_one_client_are_taken() {
    let mut a = Associate::new();
    let me = SocketAddr::V4([127, 0, 0, 1], 5000);
    let other = SocketAddr::V4([127, 0, 0, 1], 5001);
    let pkt = [0u8, 0, 0, 1, 8, 8, 8, 8, 0, 53, 1, 2, 3];
    let d = a.on_datagram(me, &pkt).unwrap();
    assert!(a.on_datagram(other, &pkt).is_none());
    assert!(a.on_datagram(me, &[0u8, 0, 1, 1, 8, 8, 8, 8, 0, 53, 1]).is_none(), "fragments are dropped");
    assert!(matches!(a.send(Sink::Direct, &d), Sending::To(x) if x == SocketAddr::V4([8, 8, 8, 8], 53)));
    assert!(matches!(a.send(Sink::Block, &d), Sending::Drop));
    match a.send(Sink::Mirage, &d) {
        Sending::Frame(f) => assert_eq!(f, [&[0u8, 10][..], &pkt[3..]].concat()),
        _ => panic!("a frame is expected"),
    }
    let (name, ip, port) = datagram_subject(&d.target);
    assert_eq!((name, ip, port), (None, Some(IpAddr::V4([8, 8, 8, 8])), 53));
}

#[test]
fn names_of_datagrams_are_resolved_once() {
    let mut a = Associate::new();
    let me = SocketAddr::V4([127, 0, 0, 1], 5000);
    let d = a.on_datagram(me, &[0u8, 0, 0, 3, 1, b'h', 0, 53, 9]).unwrap();
    assert!(matches!(a.send(Sink::Direct, &d), Sending::Resolve(h, 53) if h == "h"));
    a.name_resolved("h".to_string(), 53, SocketAddr::V4([1, 1, 1, 1], 53));
    assert!(matches!(a.send(Sink::Direct, &d), Sending::To(x) if x == SocketAddr::V4([1, 1, 1, 1], 53)));
    a.name_resolved("h".to_string(), 53, SocketAddr::V6(v6_doc(), 53, 0));
    assert!(matches!(a.send(Sink::Direct, &d), Sending::Drop));
}

#[test]
fn sinks_are_kept_by_name() {
    let mut a = Associate::new();
    let tag = "d".to_string();
    assert!(a.sink(&tag).is_none());
    a.sink_built(tag.clone(), Sink::Direct);
    assert!(matches!(a.sink(&tag), Some(Sink::Direct)));
    a.sink_broken(&tag);
    assert!(a.sink(&tag).is_none());
    assert!(matches!(sink_for(&OutboundNode::Block { tag: tag.clone() }), Some(Sink::Block)));
    assert!(matches!(sink_for(&OutboundNode::Direct { tag }), Some(Sink::Direct)));
}

#[test]
fn replies_are_wrapped_for_the_client() {
    assert_eq!(associate_reply(0x1234), vec![5, 0, 0, 1, 0, 0, 0, 0, 0x12, 0x34]);
    assert_eq!(wrap_reply(&SocketAddr::V4([1, 2, 3, 4], 80), b"x"), vec![0, 0, 0, 1, 1, 2, 3, 4, 0, 80, b'x']);
    let mut acc = vec![0, 2, 7, 8, 0, 1, 9, 0];
    assert_eq!(unwrap_frames(&mut acc), vec![vec![0, 0, 0, 7, 8], vec![0, 0, 0, 9]]);
    assert_eq!(acc, vec![0]);
}

#[test]
fn frames_are_taken_as_they_complete() {
    let mut acc = vec![0, 2, 7, 8, 0, 1];
    assert_eq!(take_frames(&mut acc), vec![vec![7, 8]]);
    assert_eq!(acc, vec![0, 1]);
    acc.push(9);
    assert_eq!(take_frames(&mut acc), vec![vec![9]]);
    assert!(acc.is_empty());
}

#[test]
fn mux_settings_have_at_least_one_tunnel() {
    let mut s = MuxSettings::new();
    set_udp_mux(&mut s, true, 0);
    assert!(udp_mux_enabled(&s));
    assert_eq!(s.tunnels, 1);
    set_udp_mux(&mut s, false, 3);
    assert!(!udp_mux_enabled(&s));
}

#[test]
fn queued_frames_are_sent_together() {
    let (all, n) = coalesce(vec![1], &vec![vec![2], vec![3, 4]]);
    assert_eq!((all, n), (vec![1, 2, 3, 4], 2));
    let (all, n) = coalesce(vec![0; 16384], &vec![vec![2]]);
    assert_eq!((all.len(), n), (16384, 0));
}

#[test]
fn flows_are_spread_over_tunnels() {
    let mut s = MuxSet::new(4);
    assert_eq!(s.slot_for(10), 2);
    assert!(!s.reusable(2));
    s.install(2, MuxTunnel::new());
    assert!(s.reusable(2));
    let mut r = MuxRegistry::new();
    r.enter(7, &vec![7], 3);
    r.enter(8, &vec![8], 0);
    assert!(r.sets.get(&7).is_none());
    assert_eq!(r.sets.get(&8).unwrap().slots.len(), 1);
}

fn key(port: u16) -> FlowKey {
    FlowKey { client: V4Addr { ip: 1, port }, orig_dst: V4Addr { ip: 2, port: 53 } }
}

#[test]
fn flows_are_set_up_once() {
    let mut f = Flows::new();
    assert_eq!(f.on_datagram(key(1)), Arrival::Setup);
    assert_eq!(f.on_datagram(key(1)), Arrival::Wait);
    let id = f.next_flow_id();
    assert!(f.acquire_reply(key(1).orig_dst, true));
    f.commit(key(1), id, FlowSink::Mirage);
    assert_eq!(f.on_datagram(key(1)), Arrival::Forward { id, sink: FlowSink::Mirage });
    f.finish(key(1), Some(id));
    assert_eq!(f.on_datagram(key(1)), Arrival::Setup);
    f.finish(key(1), None);
    assert_eq!(f.sessions.len(), 0);
    assert_eq!(f.replies.len(), 0);
}

#[test]
fn a_later_flow_outlives_an_earlier_one() {
    let mut f = Flows::new();
    f.on_datagram(key(1));
    let old = f.next_flow_id();
    f.acquire_reply(key(1).orig_dst, true);
    f.commit(key(1), old, FlowSink::Direct);
    let new = f.next_flow_id();
    f.acquire_reply(key(1).orig_dst, false);
    f.commit(key(1), new, FlowSink::Direct);
    f.finish(key(1), Some(old));
    assert_eq!(f.on_datagram(key(1)), Arrival::Forward { id: new, sink: FlowSink::Direct });
}

#[test]
fn flows_are_bounded() {
    let mut f = Flows::new();
    for p in 0..4096u16 {
        assert_eq!(f.on_datagram(key(p)), Arrival::Setup);
    }
    assert_eq!(f.on_datagram(key(4096)), Arrival::Full);
    assert_eq!(f.cap_drops, 1);
}

#[test]
fn flows_leave_by_their_exit() {
    let d = Some("h".to_string());
    assert!(matches!(plan_flow(Exit::Direct, d, 53), FlowPlan::Resolve(h, 53) if h == "h"));
    assert!(matches!(plan_flow(Exit::Tunnel(3), Some("h".to_string()), 53), FlowPlan::Tunnel(3, _)));
    assert!(matches!(plan_flow(Exit::Tunnel(3), Some("h".repeat(256)), 53), FlowPlan::Dropped));
    assert!(matches!(plan_flow(Exit::Refused, Some("h".to_string()), 53), FlowPlan::Dropped));
    assert!(matches!(plan_flow(Exit::Direct, None, 53), FlowPlan::Dropped));
    assert_eq!(direct_target(SocketAddr::V6(v6_doc(), 1, 0)), None);
    assert_eq!(direct_target(SocketAddr::V4([1, 1, 1, 1], 1)), Some(SocketAddr::V4([1, 1, 1, 1], 1)));
    assert_eq!(flow_subject(Some("h".to_string()), [1, 2, 3, 4]).0, Some("h".to_string()));
    assert_eq!(flow_subject(None, [1, 2, 3, 4]), (None, Some(IpAddr::V4([1, 2, 3, 4]))));
}

#[test]
fn replies_come_out_frame_by_frame() {
    assert_eq!(uplink_frame("h", 53, b"x"), Some(frame_udp_domain("h", 53, b"x")));
    assert_eq!(uplink_frame("h", 53, &vec![0u8; 65536]), None);
    let mut d = Downlink::new();
    let f = frame_udp_domain("h", 53, b"answer");
    assert!(d.on_chunk(&f[..4]).0.is_empty());
    assert_eq!(d.on_chunk(&f[4..]).0, vec![b"answer".to_vec()]);
}
