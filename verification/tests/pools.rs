use mirage::brutal::{FallbackMonitor, FallbackStep};
use mirage::camouflage::{next_showing, CamouflagePool, Showing};
use mirage::healthcheck::{answer_ok, note_check, plan_check};
use mirage::pool::{
    decide_new_target, parse_time_sync, BrutalState, BuildStep, Flight, FlightError, FlightEvent, FlightStep, Idle,
    PoolStats, WarmPool,
};
use mirage::stream::{
    draw_max_age, internal_url, is_stale, max_age_secs, recv_err_to_eof_or_io, write_step, IdleProbe, ReadBuffer, WriteState,
    WriteStep,
};

#[test]
fn idle_at_floor_stays() {
    assert_eq!(decide_new_target(10, 0, 0, 0, 50), 10);
    assert_eq!(decide_new_target(5, 0, 0, 0, 5), 5);
}

#[test]
fn idle_above_floor_drains() {
    assert_eq!(decide_new_target(15, 0, 0, 0, 50), 14);
    assert_eq!(decide_new_target(11, 0, 0, 0, 50), 10);
    assert_eq!(decide_new_target(10, 0, 0, 0, 50), 10);
}

#[test]
fn pressure_scales_up() {
    assert_eq!(decide_new_target(5, 3, 10, 0, 50), 6);
    assert_eq!(decide_new_target(10, 3, 10, 0, 50), 12);
}

#[test]
fn pressure_clamped_by_max() {
    assert_eq!(decide_new_target(50, 5, 10, 0, 50), 50);
    assert_eq!(decide_new_target(48, 5, 10, 0, 50), 50);
}

#[test]
fn over_provision_scales_down() {
    assert_eq!(decide_new_target(15, 0, 10, 6, 50), 14);
}

#[test]
fn over_provision_floor_at_floor() {
    assert_eq!(decide_new_target(10, 0, 10, 10, 50), 10);
}

#[test]
fn waiting_blocks_shrinking() {
    assert_eq!(decide_new_target(10, 3, 10, 5, 50), 12);
}

#[test]
fn no_traffic_with_expired_drains() {
    assert_eq!(decide_new_target(20, 0, 0, 10, 50), 19);
}

#[test]
fn moderate_use_no_change() {
    assert_eq!(decide_new_target(10, 1, 10, 2, 50), 10);
}

#[test]
fn handshake_flight_needs_all_three_records() {
    let mut f = Flight::new();
    assert_eq!(f.wait_ms(), 12_000);
    assert_eq!(f.on(FlightEvent::Record(0x16)), FlightStep::Continue);
    assert_eq!(f.on(FlightEvent::Record(0x14)), FlightStep::Continue);
    assert_eq!(f.wait_ms(), 1_500);
    assert_eq!(f.on(FlightEvent::Record(0x17)), FlightStep::Done);
}

#[test]
fn handshake_flight_fails_with_its_reason() {
    assert_eq!(Flight::new().on(FlightEvent::Record(0x15)), FlightStep::Failed(FlightError::Alert));
    assert_eq!(Flight::new().on(FlightEvent::BadHeader), FlightStep::Failed(FlightError::IncompleteHeader));
    assert_eq!(Flight::new().on(FlightEvent::BadBody), FlightStep::Failed(FlightError::IncompleteBody));
    assert_eq!(Flight::new().on(FlightEvent::BodyTimeout), FlightStep::Failed(FlightError::TimeoutReadingBody));
    assert_eq!(Flight::new().on(FlightEvent::HeaderTimeout), FlightStep::Failed(FlightError::TimeoutBeforeCcs));
    let mut f = Flight::new();
    f.on(FlightEvent::Record(0x14));
    assert_eq!(f.on(FlightEvent::HeaderTimeout), FlightStep::Failed(FlightError::Incomplete));
}

#[test]
fn time_frames_are_recognised() {
    assert_eq!(parse_time_sync(&[1, 1, 0, 0, 0, 0, 0, 0, 1, 2]), Some(258));
    assert_eq!(parse_time_sync(&[1, 2, 0, 0, 0, 0, 0, 0, 1, 2]), None);
    assert_eq!(parse_time_sync(&[1, 1, 0]), None);
}

#[test]
fn pool_builds_up_to_its_target_and_hands_out_in_order() {
    let mut p = WarmPool::new(2, 0);
    let mut at = Vec::new();
    for _ in 0..2 {
        match p.build_step(0) {
            BuildStep::BuildAt(t) => at.push(t),
            BuildStep::Rest => panic!("two tunnels are wanted"),
        }
    }
    assert_eq!(at, vec![0, 200]);
    assert_eq!(p.build_step(0), BuildStep::Rest);
    p.built(Idle { id: 1, created_ms: 0, max_age_sec: 100 }, 30, 5);
    p.built(Idle { id: 2, created_ms: 0, max_age_sec: 300 }, 50, 6);
    assert_eq!(p.stats.latency_ms(), Some(50));
    p.begin_get();
    let t = p.take(101_000, 0);
    assert_eq!(t.closed.len(), 1);
    assert_eq!(t.closed[0].id, 1);
    assert_eq!(t.tunnel.unwrap().id, 2);
}

#[test]
fn pool_counts_a_long_wait() {
    let mut p = WarmPool::new(5, 0);
    if p.build_step(0) == BuildStep::Rest {
        panic!("a tunnel is wanted");
    }
    p.built(Idle { id: 7, created_ms: 0, max_age_sec: 100 }, 10, 0);
    p.begin_get();
    let t = p.take(1, 51);
    assert!(t.tunnel.is_some());
    assert_eq!((p.metrics.total_gets, p.metrics.wait_events), (1, 1));
    assert!(p.adjust(2).is_empty());
    assert_eq!((p.metrics.total_gets, p.metrics.wait_events), (0, 0));
}

#[test]
fn three_failures_make_a_pool_unhealthy() {
    let mut s = PoolStats::new();
    assert!(s.is_healthy());
    for _ in 0..3 {
        s.record_failure();
    }
    assert!(!s.is_healthy());
    s.record_latency(20, 9);
    assert!(s.is_healthy());
    assert_eq!(s.latency_ms(), Some(20));
}

#[test]
fn rate_changes_reach_idle_and_active_tunnels() {
    let mut b = BrutalState::new(Some(1000), None);
    let g = b.active_fd_guard(9);
    assert_eq!(b.update_brutal_rate(2000, &vec![3, 4]), vec![3, 4, 9]);
    assert_eq!(b.current_rate, 2000);
    b.release(g);
    assert!(b.update_brutal_rate(3000, &Vec::new()).is_empty());
}

#[test]
fn health_check_asks_and_judges() {
    let p = plan_check("http://www.gstatic.com/generate_204");
    assert_eq!(&p.header[2..], b"www.gstatic.com:80");
    assert_eq!(&p.header[..2], &[0, 18]);
    assert!(p.request.starts_with("GET /generate_204 HTTP/1.1\r\nHost: www.gstatic.com\r\n"), "{}", p.request);
    assert!(answer_ok(b"HTTP/1.1 204 No Content"));
    assert!(!answer_ok(b"HTTP/1.1 502 Bad Gateway"));
    let mut s = PoolStats::new();
    note_check(&mut s, Some(&b"HTTP/1.1 204 No Content"[..]), 33, 1);
    assert_eq!(s.latency_ms(), Some(33));
    assert_eq!(s.last_sample_time, Some(1));
    note_check(&mut s, None, 0, 2);
    assert_eq!(s.consecutive_failures, 1);
    assert_eq!(s.last_sample_time, Some(1));
    note_check(&mut s, Some(&b"HTTP/1.1 502 Bad Gateway"[..]), 7, 3);
    assert_eq!((s.consecutive_failures, s.last_sample_time), (2, Some(1)));
}

#[test]
fn fallback_is_not_hasty() {
    let mut m = FallbackMonitor::new();
    assert_eq!(m.look(900, 1000), FallbackStep::Watch, "the first look only takes note");
    assert_eq!(m.look(999, 1499), FallbackStep::Watch, "too few segments to judge");
    assert_eq!(m.look(1100, 2499), FallbackStep::SwitchToBbr);
}

#[test]
fn a_clean_link_is_left_alone() {
    let mut m = FallbackMonitor::new();
    m.look(0, 0);
    for i in 1..6u32 {
        assert_eq!(m.look(0, 1000 * i), FallbackStep::Watch);
    }
    assert_eq!(m.look(0, 6000), FallbackStep::Leave);
}

#[test]
fn camouflage_pool_keeps_what_lives() {
    let mut p = CamouflagePool::new("www.apple.com".to_string());
    assert!(p.wants_more());
    p.connected(1, 40_000, 0);
    let first = p.rtt_us();
    p.connected(2, 10_000, 0);
    assert!(p.rtt_us() <= first);
    p.purge(&vec![false, true], 1);
    assert_eq!(p.acquire(&vec![true]), Some(2));
    assert_eq!(p.acquire(&Vec::new()), None);
}

#[test]
fn camouflage_falls_back_in_order() {
    assert_eq!(next_showing(Showing::Ready, false), Showing::Connect);
    assert_eq!(next_showing(Showing::Connect, false), Showing::Template);
    assert_eq!(next_showing(Showing::Ready, true), Showing::Done);
    assert_eq!(next_showing(Showing::Template, false), Showing::Done);
}

#[test]
fn idle_tunnels_are_judged_by_what_they_hold() {
    assert!(!is_stale(IdleProbe::Nothing));
    assert!(is_stale(IdleProbe::Data));
    assert!(is_stale(IdleProbe::Closed));
    assert!(is_stale(IdleProbe::Broken));
    assert_eq!(max_age_secs(0) + 1, max_age_secs(1));
    assert!((0..200).all(|_| (30..50).contains(&draw_max_age())));
}

#[test]
fn bytes_are_read_in_order() {
    let mut b = ReadBuffer::new();
    assert!(b.read(4).is_none());
    assert!(!b.fill(vec![1, 2, 3]));
    assert_eq!(b.read(2), Some(vec![1, 2]));
    assert_eq!(b.read(2), Some(vec![3]));
    assert!(b.read(2).is_none());
    assert!(b.fill(Vec::new()), "an empty message is the end");
}

#[test]
fn closing_counts_as_the_end() {
    assert_eq!(recv_err_to_eof_or_io("boom".to_string()), Err("boom".to_string()));
    assert_eq!(recv_err_to_eof_or_io("peer sent close_notify".to_string()), Ok(Vec::new()));
    assert_eq!(internal_url(1080), "socks5://127.0.0.1:1080");
    assert_eq!(write_step(WriteState::Idle, None, 5), (WriteState::Busy, WriteStep::Taken(5)));
    assert_eq!(write_step(WriteState::Busy, None, 5).1, WriteStep::Wait);
    assert_eq!(write_step(WriteState::Busy, Some(false), 5).1, WriteStep::Failed);
}
