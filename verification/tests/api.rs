use bandix_plus::access::{
    bearer_token_matches, is_authorized, parse_cors_origin, read_token, tls_files, OriginError,
};
use bandix_plus::api::{
    asked, cumulative_from_buckets, delete_device_answer, delete_device_error, devices_of_range, devices_on, forget_device,
    overview_of_range, parse_bucket, parse_direction, parse_period_scope, parse_traffic_type,
    resolve_query_iface_to_ifindex, set_device_hostname, trend, AggregateQuery, ApiEnvelope,
    DeleteDeviceRequest, DeleteDeviceResult, DeviceError, InterfaceError, SetDeviceHostnameRequest, UsageRankingQuery,
};
use bandix_plus::bucket::{AggregatedBucket, CounterQuad, HistoryDirection, HistoryTrafficType};
use bandix_plus::clock::PeriodScope;
use bandix_plus::history::{AggregateBucket, HistogramHistory};
use bandix_plus::recent::TrafficHistory;
use bandix_plus::runtime::MonitorRuntime;
use bandix_plus::snapshot::{DeviceListItem, InterfaceOverviewItem, SnapshotData};
use bandix_plus::topology::{Interface, InterfaceRole, TopologySnapshot};
use bandix_plus::usage::{
    aggregate, aggregate_request, merge_windows, rank_usage, usage_ranking, usage_request,
    BadRequest, UsageRequest,
};
use chrono::{Local, TimeZone};

#[test]
fn bearer_token_comparison_accepts_only_exact_value() {
    assert!(bearer_token_matches(
        b"a-long-token-value-at-least-32-chars",
        b"a-long-token-value-at-least-32-chars"
    ));
    assert!(!bearer_token_matches(
        b"a-long-token-value-at-least-32-charS",
        b"a-long-token-value-at-least-32-chars"
    ));
    assert!(!bearer_token_matches(b"short", b"a-long-token-value-at-least-32-chars"));
}

#[test]
fn cors_origin_rejects_paths_and_non_http_schemes() {
    assert!(parse_cors_origin("http://192.168.1.1:80".into()).is_ok());
    assert!(parse_cors_origin("https://router.example".into()).is_ok());
    assert!(parse_cors_origin("http://router.example/luci".into()).is_err());
    assert!(parse_cors_origin("file://router.example".into()).is_err());
}

#[test]
fn cors_origin_errors_are_told_apart() {
    assert_eq!(parse_cors_origin("ftp://x".into()), Err(OriginError::Scheme));
    for text in ["http://", "http://a/b", "http://a?b", "https://a#b", "https://u@a"] {
        assert_eq!(parse_cors_origin(text.into()), Err(OriginError::Authority));
    }
    assert_eq!(parse_cors_origin("http://a\nb".into()), Err(OriginError::Header));
    assert_eq!(parse_cors_origin("http://a\u{e9}".into()).as_deref(), Ok("http://a\u{e9}"));
}

#[test]
fn requests_need_the_token() {
    let token = "a-long-token-value-at-least-32-chars";
    assert!(is_authorized(false, Some("Bearer a-long-token-value-at-least-32-chars"), token));
    assert!(!is_authorized(false, Some("a-long-token-value-at-least-32-chars"), token));
    assert!(!is_authorized(false, Some("Bearer "), token));
    assert!(!is_authorized(false, None, token));
    assert!(is_authorized(true, None, token));
    assert_eq!(read_token("  a-long-token-value-at-least-32-chars\n").as_deref(), Some(token));
    assert_eq!(read_token("short"), None);
}

#[test]
fn incomplete_tls_is_rejected() {
    for (cert, key) in [(Some("missing.pem".to_string()), None), (None, Some("missing.pem".to_string()))] {
        let incomplete = tls_files(cert, key).err().expect("incomplete TLS must fail");
        assert!(incomplete.message().contains("must be supplied together"));
    }
    assert_eq!(tls_files(None, None), Ok(None));
    assert_eq!(
        tls_files(Some("c".into()), Some("k".into())),
        Ok(Some(("c".to_string(), "k".to_string())))
    );
}

#[test]
fn words_of_requests_are_read() {
    assert_eq!(parse_period_scope(None), Ok(None));
    assert_eq!(parse_period_scope(Some(" ")), Ok(None));
    assert_eq!(parse_period_scope(Some("ALL")), Ok(None));
    assert_eq!(parse_period_scope(Some(" Today ")), Ok(Some(PeriodScope::Today)));
    assert_eq!(parse_period_scope(Some("week")), Ok(Some(PeriodScope::Week)));
    assert_eq!(parse_period_scope(Some("month")), Ok(Some(PeriodScope::Month)));
    assert_eq!(parse_period_scope(Some("year")), Ok(Some(PeriodScope::Year)));
    assert_eq!(
        parse_period_scope(Some("hour")),
        Err("invalid period, expected one of: all, today, week, month, year".to_string())
    );
    assert_eq!(parse_traffic_type(Some("IPv4")), HistoryTrafficType::Ipv4);
    assert_eq!(parse_traffic_type(Some("ipv6")), HistoryTrafficType::Ipv6);
    assert_eq!(parse_traffic_type(Some("x")), HistoryTrafficType::All);
    assert_eq!(parse_direction(Some("UP")), HistoryDirection::Up);
    assert_eq!(parse_direction(Some("down")), HistoryDirection::Down);
    assert_eq!(parse_direction(None), HistoryDirection::Both);
    assert_eq!(parse_bucket(Some("Daily")), AggregateBucket::Daily);
    assert_eq!(parse_bucket(Some("x")), AggregateBucket::Hourly);
    assert_eq!(asked(Some(" a ")).as_deref(), Some("a"));
    assert_eq!(asked(Some("  ")), None);
    let fine = ApiEnvelope::success(5);
    assert!(fine.ok && fine.data == 5 && fine.error.is_none());
    let failed = ApiEnvelope::failure(0, "no".to_string());
    assert!(!failed.ok && failed.error.as_deref() == Some("no"));
}

fn topology() -> TopologySnapshot {
    TopologySnapshot::from_interfaces(vec![Interface {
        ifindex: 1,
        name: "br-lan".into(),
        role: InterfaceRole::Bridge,
        zone: "lan".into(),
        parent_ifindex: None,
        ipv4_cidrs: vec![],
        ipv6_cidrs: vec![],
    }])
}

const MAC: [u8; 6] = [2, 0, 0, 0, 0, 0xa];

fn row(iface: &str, mac: &str) -> DeviceListItem {
    DeviceListItem {
        ifindex: 1,
        logical_iface: iface.into(),
        subnet: "10.0.0.1/24".into(),
        ipv4: vec!["10.0.0.5".into()],
        ipv6: vec![],
        mac: mac.into(),
        hostname: "old".into(),
        metrics: CounterQuad::default(),
        cumulative: CounterQuad::default(),
        online: true,
        last_seen_ms: 1,
        neighbor_state: None,
    }
}

fn overview(ifindex: u32, name: &str) -> InterfaceOverviewItem {
    InterfaceOverviewItem {
        ifindex,
        ifname: name.into(),
        zone: "lan".into(),
        metrics: CounterQuad::default(),
        cumulative: CounterQuad::default(),
    }
}

fn snapshot() -> SnapshotData {
    SnapshotData {
        timestamp_ms: 9,
        interfaces: vec![overview(1, "br-lan"), overview(8, "wan")],
        devices: vec![row("br-lan", "02:00:00:00:00:0A"), row("guest", "02:00:00:00:00:0b")],
    }
}

#[test]
fn interfaces_are_found_by_name() {
    let rows = snapshot().interfaces;
    let find = |name: Option<&str>| resolve_query_iface_to_ifindex(name, &topology(), &rows);
    assert_eq!(find(Some(" br-lan ")), Ok(1));
    assert_eq!(find(Some("wan")), Ok(8));
    assert_eq!(find(Some("eth9")), Err(InterfaceError::Unknown));
    assert_eq!(find(Some(" ")), Err(InterfaceError::Required));
    assert_eq!(find(None), Err(InterfaceError::Required));
    assert_eq!(devices_on(&snapshot().devices, Some("guest")).len(), 1);
    assert_eq!(devices_on(&snapshot().devices, Some("")).len(), 2);
    assert_eq!(devices_on(&snapshot().devices, None).len(), 2);
}

#[test]
fn devices_are_named() {
    let mut snap = snapshot();
    let mut runtime = MonitorRuntime::new();
    let request = |iface: &str, mac: &str, hostname: &str| SetDeviceHostnameRequest {
        iface: iface.into(),
        mac: mac.into(),
        hostname: hostname.into(),
    };
    let mut set = |iface: &str, mac: &str, hostname: &str| {
        set_device_hostname(&request(iface, mac, hostname), &topology(), &mut snap, &mut runtime, 77)
    };
    assert_eq!(set("", "x", "x"), Err(DeviceError::InterfaceRequired));
    assert_eq!(set("br-lan", " ", "x"), Err(DeviceError::MacRequired));
    assert_eq!(set("br-lan", "x", ""), Err(DeviceError::HostnameRequired));
    assert_eq!(set("eth9", "x", "x"), Err(DeviceError::UnknownInterface));
    assert_eq!(set("br-lan", "x", "x"), Err(DeviceError::InvalidMac));
    assert_eq!(set("br-lan", "02:00:00:00:00:0f", "x"), Err(DeviceError::NotFound));
    assert_eq!(set("br-lan", "02:00:00:00:00:0a", " new "), Ok(()));
    assert_eq!(snap.devices[0].hostname, "new");
    assert_eq!(snap.devices[1].hostname, "old");
    let known = runtime.device_registry.entries.get(&(1, MAC)).unwrap();
    assert_eq!((known.hostname.as_str(), known.last_seen_ms), ("new", 77));
    assert_eq!(known.ipv4, vec!["10.0.0.5"]);
    assert_eq!(
        set_device_hostname(&request("br-lan", "02:00:00:00:00:0a", "b"), &topology(), &mut snap, &mut runtime, 99),
        Ok(())
    );
    let known = runtime.device_registry.entries.get(&(1, MAC)).unwrap();
    assert_eq!((known.hostname.as_str(), known.last_seen_ms), ("b", 77));
}

fn hour(start: u64, up: u64) -> AggregatedBucket {
    AggregatedBucket {
        start_ts_ms: start,
        end_ts_ms: start + 3_599_999,
        sample_count: 1,
        up_v4_bytes: up,
        down_v6_bytes: 1,
        ..Default::default()
    }
}

fn noon() -> u64 {
    Local.with_ymd_and_hms(2024, 1, 15, 12, 0, 0).unwrap().timestamp_millis() as u64
}

fn histogram() -> HistogramHistory {
    let mut h = HistogramHistory::with_capacity_hours(24);
    h.restore_iface_bucket(1, hour(noon(), 1000));
    h.restore_device_bucket(1, "02:00:00:00:00:0a".into(), hour(noon(), 300));
    h.restore_device_bucket(1, "02:00:00:00:00:0b".into(), hour(noon(), 500));
    h
}

fn runtime() -> MonitorRuntime {
    let mut runtime = MonitorRuntime::new();
    let mut snap = snapshot();
    for last in ["0a", "0b"] {
        set_device_hostname(
            &SetDeviceHostnameRequest {
                iface: "br-lan".into(),
                mac: format!("02:00:00:00:00:{last}"),
                hostname: format!("host-{last}"),
            },
            &topology(),
            &mut snap,
            &mut runtime,
            1,
        )
        .unwrap();
    }
    runtime
}

#[test]
fn forgotten_devices_leave_nothing() {
    let mut snap = snapshot();
    let mut runtime = runtime();
    let mut recent = TrafficHistory::new(5);
    recent.ingest_snapshot(&snap);
    let mut hours = histogram();
    let request = |iface: &str, mac: &str| DeleteDeviceRequest { iface: iface.into(), mac: mac.into() };
    let mut forget = |iface: &str, mac: &str| {
        forget_device(&request(iface, mac), &topology(), &mut snap, &mut runtime, &mut recent, &mut hours)
    };
    assert_eq!(forget(" ", "x").err(), Some(DeviceError::InterfaceRequired));
    assert_eq!(forget("br-lan", "x").err(), Some(DeviceError::InvalidMac));
    assert_eq!(forget("eth9", "02:00:00:00:00:0a").err(), Some(DeviceError::UnknownInterface));
    let gone = forget(" br-lan ", "02:00:00:00:00:0A").unwrap();
    assert_eq!((gone.iface.as_str(), gone.mac.as_str()), ("br-lan", "02:00:00:00:00:0a"));
    assert!(gone.result.device_state_deleted && gone.result.traffic_data_deleted);
    let again = forget("br-lan", "02:00:00:00:00:0a").unwrap();
    assert!(!again.result.device_state_deleted && !again.result.traffic_data_deleted);
    assert_eq!(snap.devices.len(), 1);
    assert_eq!(runtime.device_registry.entries.len(), 1);
}

#[test]
fn traffic_of_a_range_is_told() {
    let h = histogram();
    let mut rows = snapshot().interfaces;
    overview_of_range(&mut rows, &h, noon(), noon());
    assert_eq!((rows[0].cumulative.up_v4_bytes, rows[1].cumulative.up_v4_bytes), (1000, 0));
    let mut devices = snapshot().devices;
    devices_of_range(&mut devices, &h, noon(), noon());
    assert_eq!(devices[0].cumulative.up_v4_bytes, 300);
    assert_eq!(cumulative_from_buckets(&vec![hour(0, 4), hour(1, 5)]).up_v4_bytes, 9);
    let mut recent = TrafficHistory::new(5);
    recent.ingest_snapshot(&snapshot());
    let samples = trend(&recent, 1, Some("02:00:00:00:00:0a"), HistoryTrafficType::All, HistoryDirection::Both);
    assert_eq!(samples.len(), 1);
    assert_eq!(trend(&recent, 8, Some(" "), HistoryTrafficType::All, HistoryDirection::Both).len(), 1);
}

fn query(mac: Option<&str>, bucket: &str) -> AggregateQuery {
    AggregateQuery {
        iface: Some("br-lan".into()),
        mac: mac.map(String::from),
        traffic_type: Some("ipv4".into()),
        start_ms: None,
        end_ms: None,
        bucket: Some(bucket.into()),
    }
}

#[test]
fn devices_of_an_interface_are_taken_together() {
    let snap = snapshot();
    let runtime = runtime();
    let now = noon() + 3_600_000;
    for bucket in ["hourly", "daily"] {
        let one = aggregate_request(&query(Some("02:00:00:00:00:0A"), bucket), &topology(), &snap.interfaces, now).unwrap();
        assert_eq!((one.start_ms, one.end_ms), (now - 86_400_000, now));
        let v = aggregate(&histogram(), &runtime.device_registry, &one).unwrap();
        assert_eq!((v.len(), v[0].up_v4_bytes, v[0].down_v6_bytes), (1, 300, 0));
        let all = aggregate_request(&query(Some(" "), bucket), &topology(), &snap.interfaces, now).unwrap();
        let v = aggregate(&histogram(), &runtime.device_registry, &all).unwrap();
        assert_eq!((v.len(), v[0].up_v4_bytes), (1, 800));
    }
    let unknown = AggregateQuery { iface: None, ..query(None, "x") };
    assert_eq!(
        aggregate_request(&unknown, &topology(), &snap.interfaces, now).err(),
        Some(InterfaceError::Required)
    );
    let merged = merge_windows(&vec![vec![hour(5, 1), hour(2, 1)], vec![hour(2, 10)]]);
    assert_eq!(
        merged.iter().map(|b| (b.start_ts_ms, b.up_v4_bytes, b.sample_count)).collect::<Vec<_>>(),
        vec![(2, 11, 0), (5, 1, 0)]
    );
}

#[test]
fn devices_are_ranked_by_their_traffic() {
    let snap = snapshot();
    let runtime = runtime();
    let now = noon() + 3_600_000;
    let query = |iface: Option<&str>, limit: Option<usize>| UsageRankingQuery {
        iface: iface.map(String::from),
        traffic_type: None,
        start_ms: None,
        end_ms: None,
        limit,
    };
    let read = |q: UsageRankingQuery| usage_request(&q, &topology(), &snap.interfaces, now);
    let all = read(query(Some("all"), Some(0))).unwrap();
    assert_eq!((all.only, all.limit, all.start_ms), (None, None, now - 31_536_000_000));
    let ranked = usage_ranking(&histogram(), &runtime.device_registry, &all).unwrap();
    assert_eq!(
        ranked.iter().map(|x| (x.mac.as_str(), x.total_bytes)).collect::<Vec<_>>(),
        vec![("02:00:00:00:00:0b", 501), ("02:00:00:00:00:0a", 301)]
    );
    assert_eq!(ranked[0].hostname, "host-0b");
    let first = read(query(Some("br-lan"), Some(1))).unwrap();
    assert_eq!(usage_ranking(&histogram(), &runtime.device_registry, &first).unwrap().len(), 1);
    let elsewhere = read(query(Some("wan"), None)).unwrap();
    assert!(usage_ranking(&histogram(), &runtime.device_registry, &elsewhere).unwrap().is_empty());
    assert_eq!(read(query(None, None)), Err(BadRequest));
    assert_eq!(read(query(Some("eth9"), None)), Err(BadRequest));
    assert_eq!(
        read(UsageRankingQuery { start_ms: Some(5), end_ms: Some(4), ..query(Some("all"), None) }),
        Err(BadRequest)
    );
}

#[test]
fn refused_requests_are_told_why() {
    assert_eq!(DeviceError::InterfaceRequired.message(""), "iface is required");
    assert_eq!(DeviceError::MacRequired.message("eth9"), "mac is required");
    assert_eq!(DeviceError::HostnameRequired.message("eth9"), "hostname is required");
    assert_eq!(DeviceError::UnknownInterface.message(" eth9 "), "unknown iface: eth9");
    assert_eq!(DeviceError::InvalidMac.message("eth9"), "invalid mac format");
    assert_eq!(DeviceError::NotFound.message("eth9"), "device not found");
    assert_eq!(InterfaceError::Required.message(None), "iface is required");
    assert_eq!(InterfaceError::Unknown.message(Some(" eth9 ")), "unknown iface: eth9");
    assert_eq!(
        OriginError::Scheme.message(),
        "--cors-origin must be an http:// or https:// origin"
    );
    assert_eq!(
        OriginError::Authority.message(),
        "--cors-origin must contain only scheme, host, and optional port (no path or credentials)"
    );
    assert_eq!(
        OriginError::Header.message(),
        "invalid --cors-origin: failed to parse header value"
    );
    let refused = delete_device_error("no".to_string());
    assert!(!refused.ok && !refused.data.device_state_deleted && !refused.data.traffic_data_deleted);
    assert_eq!(refused.error.as_deref(), Some("no"));
    let state = DeleteDeviceResult {
        device_state_deleted: true,
        traffic_data_deleted: false,
    };
    let done = delete_device_answer(state, true);
    assert!(done.ok && done.data.device_state_deleted && done.data.traffic_data_deleted);
    assert!(!delete_device_answer(state, false).data.traffic_data_deleted);
}

#[test]
fn traffic_is_ranked_whatever_days_it_belongs_to() {
    let runtime = runtime();
    let registry = &runtime.device_registry;
    let request = UsageRequest {
        only: Some(1),
        start_ms: 0,
        end_ms: u64::MAX,
        traffic_type: HistoryTrafficType::All,
        limit: None,
    };
    let totals = |h: &HistogramHistory| {
        let ranked = usage_ranking(h, registry, &request).unwrap();
        ranked.iter().map(|x| (x.mac.clone(), x.total_bytes)).collect::<Vec<_>>()
    };
    let mut hours = HistogramHistory::with_capacity_hours(24);
    assert!(totals(&hours).is_empty());
    // Hours of two days, and one outside the calendar.
    let outside = 9_000_000_000_000_000;
    for start in [noon(), noon() + 86_400_000, outside] {
        hours.restore_device_bucket(1, "02:00:00:00:00:0a".into(), hour(start, 100));
    }
    hours.restore_device_bucket(1, "02:00:00:00:00:0b".into(), hour(outside, u64::MAX));
    assert_eq!(
        totals(&hours),
        vec![("02:00:00:00:00:0b".to_string(), u64::MAX), ("02:00:00:00:00:0a".to_string(), 303)]
    );

    // From buckets that were found, and where none were found of a device.
    let found = |b: Option<Vec<AggregatedBucket>>| vec![Some(vec![hour(0, 5)]), b];
    let ranked = rank_usage(registry, &request, &found(Some(vec![hour(0, 6), hour(1, 1)]))).unwrap();
    assert_eq!(ranked.iter().map(|x| x.total_bytes).collect::<Vec<_>>(), vec![9, 6]);
    assert!(rank_usage(registry, &request, &found(None)).is_none());
    let elsewhere = UsageRequest { only: Some(8), ..request };
    assert!(rank_usage(registry, &elsewhere, &found(None)).unwrap().is_empty());
    let first = UsageRequest { limit: Some(1), ..request };
    assert_eq!(rank_usage(registry, &first, &found(Some(vec![]))).unwrap().len(), 1);
}
