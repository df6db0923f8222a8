use mirage::calendar::{civil_from_days, compute_period_start, days_from_civil};
use mirage::ip::IpAddr;
use mirage::rate_limit::{
    need_of, or_address, parse_source, server_buckets_for, set_server_limiter, DeviceProfile, Grant, Net, RateLimiter,
    ServerLimiter, TokenBucket,
};
use mirage::table::Table;
use mirage::user_limits::{
    build_registry, check_period_rollover, check_period_rollover_at, clock_secs, current_unix_time,
    export_persisted_quotas, get_user_limit, get_user_period_stats, init_user_limits, is_user_exhausted, reload_user_limits, reset_user_quota,
    restore_persisted_quotas, restore_persisted_quotas_at, MirageUser, UserLimitHandle, UserLimitsRegistry,
};

const GB: f64 = 1_073_741_824.0;

fn user(name: &str, kbps: Option<u64>, quota_gb: f64, day: u8) -> MirageUser {
    MirageUser {
        name: name.to_string(),
        password: "pwd".to_string(),
        rate_limit_kbps: kbps,
        quota_bytes: Some((quota_gb * GB) as u64),
        quota_reset_day: Some(day),
    }
}

fn device(kbps: Option<u64>) -> Vec<DeviceProfile> {
    vec![DeviceProfile {
        source_ip_cidr: vec!["192.168.1.0/24".to_string()],
        profile: "kids".to_string(),
        name: None,
        rate_limit_kbps: kbps,
    }]
}

#[test]
fn test_civil_calendar_conversions() {
    assert_eq!(days_from_civil(1970, 1, 1), 0);
    assert_eq!(civil_from_days(0), (1970, 1, 1));
    let days = days_from_civil(2026, 9, 26);
    assert_eq!(civil_from_days(days), (2026, 9, 26));
    let leap_days = days_from_civil(2024, 2, 29);
    assert_eq!(civil_from_days(leap_days), (2024, 2, 29));
}

#[test]
fn known_days_have_known_dates() {
    assert_eq!(days_from_civil(2000, 3, 1), 11017);
    assert_eq!(civil_from_days(-1), (1969, 12, 31));
    assert_eq!(civil_from_days(11016), (2000, 2, 29));
    assert_eq!(days_from_civil(0, 3, 1), -719468);
    for (z, date) in [
        (i64::MAX - 719468, (25_252_734_927_766_554i64, 9u32, 25u32)),
        (i64::MIN, (-25_252_734_927_764_585, 6, 7)),
    ] {
        assert_eq!(civil_from_days(z), date);
        assert_eq!(days_from_civil(date.0, date.1, date.2), z);
    }
    assert_eq!(days_from_civil(2000, 1, 4_000_000_000), 4_000_010_956);
}

#[test]
fn test_period_start_calculation() {
    let ts_2026_09_26 = days_from_civil(2026, 9, 26) as u64 * 86400 + 15 * 3600 + 1800;
    let start_1 = compute_period_start(ts_2026_09_26, 1);
    let expected_1 = days_from_civil(2026, 9, 1) as u64 * 86400;
    assert_eq!(start_1, expected_1);
    let start_26 = compute_period_start(ts_2026_09_26, 26);
    let expected_26 = days_from_civil(2026, 9, 26) as u64 * 86400;
    assert_eq!(start_26, expected_26);
    let start_28 = compute_period_start(ts_2026_09_26, 28);
    let expected_28 = days_from_civil(2026, 8, 28) as u64 * 86400;
    assert_eq!(start_28, expected_28);
    let ts_2026_01_10 = days_from_civil(2026, 1, 10) as u64 * 86400;
    let start_jan = compute_period_start(ts_2026_01_10, 20);
    let expected_dec = days_from_civil(2025, 12, 20) as u64 * 86400;
    assert_eq!(start_jan, expected_dec);
}

#[test]
fn a_period_lasts_until_the_next_reset_day() {
    let first = days_from_civil(2026, 9, 5) as u64 * 86400;
    let last = days_from_civil(2026, 10, 5) as u64 * 86400 - 1;
    assert_eq!(compute_period_start(first, 5), first);
    assert_eq!(compute_period_start(last, 5), first);
    assert_eq!(compute_period_start(last + 1, 5), last + 1);
}

#[test]
fn test_quota_accumulation_and_exhaustion() {
    let mut handle = UserLimitHandle::new(&"bob".to_string(), None, Some(1000), 1, 100, 0);
    assert!(!handle.is_exhausted());
    let over = handle.record_bytes(600);
    assert!(!over);
    assert!(!handle.is_exhausted());
    assert_eq!(handle.period_used, 600);
    let over = handle.record_bytes(500);
    assert!(over);
    assert!(handle.is_exhausted());
    assert_eq!(handle.period_used, 1100);
    assert!(handle.record_bytes(50));
}

#[test]
fn charge_gate_passes_without_handle_and_trips_on_quota() {
    let mut h = UserLimitHandle::new(&"q".to_string(), None, Some(1000), 1, 0, 0);
    assert!(!h.record_bytes(600));
    assert!(h.record_bytes(500));
    assert!(h.is_exhausted());
    let mut free = UserLimitHandle::new(&"f".to_string(), None, None, 1, 0, 0);
    assert!(!free.record_bytes(1 << 30));
    assert_eq!(free.quota_bytes(), None);
    assert_eq!((h.quota_bytes(), h.reset_day()), (Some(1000), 1));
}

#[test]
fn test_shared_buckets_for_same_user() {
    let mut reg = UserLimitsRegistry::new();
    build_registry(&mut reg, &[user("carol", Some(500), 1.0, 1)], false, 1790436600, 0);
    let u1 = get_user_limit(&reg, "carol").unwrap();
    let u2 = get_user_limit(&reg, "carol").unwrap();
    assert_eq!(u1, u2);
    assert_eq!(reg.handles[u1].buckets().unwrap().up.rate, 62_500);
}

#[test]
fn test_hot_reload_preserves_usage_and_reevaluates_exhausted() {
    let now = 1790436600;
    let mut reg = UserLimitsRegistry::new();
    build_registry(&mut reg, &[user("dave", Some(500), 1.0, 1)], false, now, 0);
    let h1 = get_user_limit(&reg, "dave").unwrap();
    let used_bytes = (1.5 * GB) as usize;
    assert!(reg.handles[h1].record_bytes(used_bytes));
    assert!(reg.handles[h1].is_exhausted());
    build_registry(&mut reg, &[user("dave", Some(1000), 2.0, 1)], true, now, 0);
    let h2 = get_user_limit(&reg, "dave").unwrap();
    assert_eq!(reg.handles[h2].period_used, used_bytes as u64);
    assert!(!reg.handles[h2].is_exhausted());
    assert_eq!(h1, h2);
    assert!(reg.handles[h1].record_bytes((0.6 * GB) as usize));
    assert!(reg.handles[h2].is_exhausted());
    assert_eq!(reg.handles[h2].buckets().unwrap().up.rate, 125_000);
}

#[test]
fn test_reset_user_quota() {
    let mut reg = UserLimitsRegistry::new();
    init_user_limits(&mut reg, &[user("eve", None, 1.0, 1)], 0);
    let h = get_user_limit(&reg, "eve").unwrap();
    reg.handles[h].record_bytes((1.5 * GB) as usize);
    assert!(reg.handles[h].is_exhausted());
    assert!(is_user_exhausted(&reg, "eve"));
    reset_user_quota(&mut reg, "eve");
    assert_eq!(reg.handles[h].period_used, 0);
    assert!(!reg.handles[h].is_exhausted());
}

#[test]
fn test_persisted_quota_roundtrip() {
    let mut reg = UserLimitsRegistry::new();
    init_user_limits(&mut reg, &[user("frank", None, 10.0, 5)], 0);
    let h = get_user_limit(&reg, "frank").unwrap();
    reg.handles[h].record_bytes(4096);
    let exported = export_persisted_quotas(&reg);
    assert_eq!(exported.get(&"frank".to_string()).unwrap().period_bytes, 4096);
    reg.handles[h].period_used = 0;
    assert_eq!(reg.handles[h].period_used, 0);
    restore_persisted_quotas(&mut reg, exported);
    assert_eq!(reg.handles[h].period_used, 4096);
}

#[test]
fn the_default_user_is_never_exhausted() {
    let mut reg = UserLimitsRegistry::new();
    build_registry(&mut reg, &[user("default", None, 0.000001, 1)], false, 1790436600, 0);
    assert!(get_user_limit(&reg, "default").is_none());
    assert!(!is_user_exhausted(&reg, "default"));
    assert!(!is_user_exhausted(&reg, "nobody"));
    assert_eq!(get_user_period_stats(&reg, "nobody"), (0, 0, false));
}

#[test]
fn a_new_period_starts_from_nothing() {
    let now = days_from_civil(2026, 9, 26) as u64 * 86400;
    let mut reg = UserLimitsRegistry::new();
    build_registry(&mut reg, &[user("gil", None, 1.0, 1)], false, now, 0);
    let h = get_user_limit(&reg, "gil").unwrap();
    reg.handles[h].record_bytes(5000);
    check_period_rollover_at(&mut reg, now + 86400);
    assert_eq!(get_user_period_stats(&reg, "gil").0, 5000);
    check_period_rollover_at(&mut reg, now + 10 * 86400);
    let october = days_from_civil(2026, 10, 1) as u64 * 86400;
    assert_eq!(get_user_period_stats(&reg, "gil"), (0, october, false));
}

#[test]
fn only_the_present_period_is_put_back() {
    let now = days_from_civil(2026, 9, 26) as u64 * 86400;
    let mut reg = UserLimitsRegistry::new();
    build_registry(&mut reg, &[user("hal", None, 1.0, 1)], false, now, 0);
    let h = get_user_limit(&reg, "hal").unwrap();
    reg.handles[h].record_bytes(100);
    let saved = export_persisted_quotas(&reg);
    let later = now + 40 * 86400;
    check_period_rollover_at(&mut reg, later);
    restore_persisted_quotas_at(&mut reg, saved, later);
    assert_eq!(reg.handles[h].period_used, 0);
}

#[test]
fn the_clock_is_read() {
    let a = current_unix_time();
    assert!(a > 1_600_000_000);
    assert_eq!(clock_secs(Some(7)), 7);
    assert_eq!(clock_secs(None), 0);
    let mut reg = UserLimitsRegistry::new();
    reload_user_limits(&mut reg, &[user("ivy", None, 1.0, 1)], 0);
    check_period_rollover(&mut reg);
    assert_eq!(get_user_period_stats(&reg, "ivy").1, compute_period_start(current_unix_time(), 1));
}

#[test]
fn token_bucket_shapes_to_rate() {
    let mut tb = TokenBucket::new(1000, 0);
    assert!(matches!(tb.take(need_of(65536), 0), Grant::Done));
    match tb.take(need_of(1000), 0) {
        Grant::Wait(rest, ns) => {
            assert_eq!(rest, need_of(1000));
            assert!(ns >= 900_000_000, "{ns}");
            assert!(matches!(tb.take(rest, ns as u64), Grant::Done));
        }
        Grant::Done => panic!("the bucket is empty"),
    }
}

#[test]
fn resolve_first_match_and_kbps_conversion() {
    let mut rl = RateLimiter::from_device_profiles(&device(Some(8000)));
    assert_eq!(rl.resolve(IpAddr::V4([192, 168, 1, 50])), Some(1_000_000));
    assert_eq!(rl.resolve(IpAddr::V4([10, 0, 0, 1])), None);
    assert!(rl.buckets_for(IpAddr::V4([192, 168, 1, 50]), 0).is_some());
    assert!(rl.buckets_for(IpAddr::V4([10, 0, 0, 1]), 0).is_none());
}

#[test]
fn empty_when_no_rate_configured() {
    assert!(RateLimiter::from_device_profiles(&device(None)).is_empty());
}

#[test]
fn one_device_keeps_its_buckets() {
    let mut s = ServerLimiter { limiter: None };
    assert!(server_buckets_for(&mut s, IpAddr::V4([192, 168, 1, 5]), 0).is_none());
    set_server_limiter(&mut s, RateLimiter::from_device_profiles(&device(Some(8))));
    let a = server_buckets_for(&mut s, IpAddr::V4([192, 168, 1, 5]), 0);
    let b = server_buckets_for(&mut s, IpAddr::V4([192, 168, 1, 5]), 9);
    assert_eq!(a, b);
    assert!(a.is_some());
}

#[test]
fn sources_are_networks_or_addresses() {
    let n = parse_source("10.1.0.0/16").unwrap();
    assert!(n.contains(&IpAddr::V4([10, 1, 200, 3])));
    assert!(!n.contains(&IpAddr::V4([10, 2, 0, 1])));
    let one = parse_source("10.1.2.3").unwrap();
    assert!(one.contains(&IpAddr::V4([10, 1, 2, 3])));
    assert!(!one.contains(&IpAddr::V4([10, 1, 2, 4])));
    let six = parse_source("2001:db8::/32").unwrap();
    assert!(six.contains(&IpAddr::V6([0x20, 0x01, 0x0d, 0xb8, 9, 0, 0, 0, 0, 0, 0, 0, 0, 0, 0, 1])));
    assert!(!six.contains(&IpAddr::V4([10, 1, 2, 3])));
    assert!(parse_source("nonsense").is_none());
    let given = or_address(Some(Net { addr: IpAddr::V4([1, 2, 3, 4]), prefix: 8 }), "9.9.9.9").unwrap();
    assert_eq!(given.prefix, 8);
    assert_eq!(or_address(None, "9.9.9.9").unwrap().prefix, 32);
}

#[test]
fn tables_hold_what_was_put_in() {
    let mut t: Table<u64, u8> = Table::new();
    t.insert(1, 10);
    t.insert(2, 20);
    t.insert(1, 11);
    assert_eq!((t.len(), t.get(&1), t.get(&3)), (2, Some(&11), None));
    assert_eq!(t.remove(&1), Some(11));
    assert!(!t.contains(&1));
}
